use vstd::prelude::*;

verus! {

use crate::ext::push_char;
use vstd::string::StringSliceAdditionalSpecFns;
use vstd::string::StrSliceExecFns;

/// Error raised when a request path holds a malformed percent escape.
#[derive(Clone, Copy, Debug, PartialEq, Eq, Structural)]
pub enum UrlDecodeError {
    InvalidPercentEncoding,
}

impl UrlDecodeError {
    /// The text shown to a client for this error.
    pub fn message(&self) -> (r: String)
        ensures
            r@ == "invalid percent encoding"@,
    {
        "invalid percent encoding".to_owned()
    }
}

pub open spec fn is_hex_digit_byte(b: u8) -> bool {
    (48 <= b <= 57) || (97 <= b <= 102) || (65 <= b <= 70)
}

pub open spec fn hex_digit_value(b: u8) -> u8
    recommends
        is_hex_digit_byte(b),
{
    if 48 <= b <= 57 {
        (b - 48) as u8
    } else if 97 <= b <= 102 {
        (b - 87) as u8
    } else {
        (b - 55) as u8
    }
}

/// What follows a `%`: a literal `%` consuming one byte, or two hex digits
/// consuming two bytes and yielding their value.
pub open spec fn convert_percent_spec(tail: Seq<u8>) -> Option<(u8, int)> {
    if tail.len() >= 1 && tail[0] == 37 {
        Some((37u8, 1int))
    } else if tail.len() >= 2 && is_hex_digit_byte(tail[0]) && is_hex_digit_byte(tail[1]) {
        Some((((hex_digit_value(tail[0]) * 16) + hex_digit_value(tail[1])) as u8, 2int))
    } else {
        None
    }
}

/// The decoding of a path, byte by byte: `%`-escapes via `convert_percent_spec`,
/// `+` becomes a space, any other byte becomes the char with that code.
pub open spec fn url_decode_bytes(bytes: Seq<u8>) -> Option<Seq<char>>
    decreases bytes.len(),
{
    if bytes.len() == 0 {
        Some(Seq::<char>::empty())
    } else if bytes[0] == 37 {
        match convert_percent_spec(bytes.drop_first()) {
            Some((b, used)) => match url_decode_bytes(bytes.skip(1 + used)) {
                Some(rest) => Some(seq![b as char] + rest),
                None => None,
            },
            None => None,
        }
    } else if bytes[0] == 43 {
        match url_decode_bytes(bytes.drop_first()) {
            Some(rest) => Some(seq![' '] + rest),
            None => None,
        }
    } else {
        match url_decode_bytes(bytes.drop_first()) {
            Some(rest) => Some(seq![bytes[0] as char] + rest),
            None => None,
        }
    }
}

/// Decodes the escape that starts just after a `%` at position `pos`.
/// Returns the decoded byte and how many input bytes the escape used.
pub fn convert_percent(bytes: &Vec<u8>, pos: usize) -> (r: Option<(u8, usize)>)
    requires
        pos <= bytes@.len(),
    ensures
        (match (r, convert_percent_spec(bytes@.skip(pos as int))) {
            (Some((b, used)), Some((sb, su))) => b == sb && used as int == su,
            (None, None) => true,
            _ => false,
        }),
{
    let ghost tail = bytes@.skip(pos as int);
    if pos < bytes.len() && bytes[pos] == 37 {
        assert(tail[0] == 37);
        Some((37u8, 1))
    } else if bytes.len() - pos >= 2 {
        let h = bytes[pos];
        let l = bytes[pos + 1];
        assert(tail[0] == h && tail[1] == l);
        if is_hex_digit(h) && is_hex_digit(l) {
            Some((hex_value(h) * 16 + hex_value(l), 2))
        } else {
            None
        }
    } else {
        None
    }
}

fn is_hex_digit(b: u8) -> (r: bool)
    ensures
        r == is_hex_digit_byte(b),
{
    (48 <= b && b <= 57) || (97 <= b && b <= 102) || (65 <= b && b <= 70)
}

fn hex_value(b: u8) -> (r: u8)
    requires
        is_hex_digit_byte(b),
    ensures
        r == hex_digit_value(b),
{
    if 48 <= b && b <= 57 {
        b - 48
    } else if 97 <= b && b <= 102 {
        b - 87
    } else {
        b - 55
    }
}

/// Percent-decodes a request path. Fails exactly when the path holds a
/// malformed percent escape.
pub fn url_decode(url: &str) -> (r: Result<String, UrlDecodeError>)
    ensures
        (match r {
            Ok(s) => url_decode_bytes(url.spec_bytes()) == Some(s@),
            Err(e) => url_decode_bytes(url.spec_bytes()) is None && e
                == UrlDecodeError::InvalidPercentEncoding,
        }),
{
    let bytes = url.as_bytes_vec();
    let mut out = String::new();
    let mut i: usize = 0;
    proof {
        assert(bytes@.skip(0) =~= bytes@);
        match url_decode_bytes(bytes@) {
            Some(t) => {
                assert(Seq::<char>::empty() + t =~= t);
            },
            None => {},
        }
    }
    while i < bytes.len()
        invariant
            i <= bytes@.len(),
            bytes@ == url.spec_bytes(),
            url_decode_bytes(bytes@) == (match url_decode_bytes(bytes@.skip(i as int)) {
                Some(t) => Some(out@ + t),
                None => None::<Seq<char>>,
            }),
        decreases bytes@.len() - i,
    {
        let ghost tail = bytes@.skip(i as int);
        assert(tail.len() > 0 && tail[0] == bytes@[i as int]);
        let b = bytes[i];
        if b == 37 {
            match convert_percent(&bytes, i + 1) {
                Some((decoded, used)) => {
                    assert(tail.drop_first() =~= bytes@.skip(i + 1));
                    push_char(&mut out, decoded as char);
                    proof {
                        let next = i + 1 + used;
                        assert(tail.skip(1 + used as int) =~= bytes@.skip(next as int));
                        lemma_out_step(out@, (decoded as char), url_decode_bytes(
                            bytes@.skip(next as int),
                        ));
                    }
                    i = i + 1 + used;
                },
                None => {
                    proof {
                        assert(tail.drop_first() =~= bytes@.skip(i + 1));
                    }
                    return Err(UrlDecodeError::InvalidPercentEncoding);
                },
            }
        } else {
            let c: char = if b == 43 {
                ' '
            } else {
                b as char
            };
            assert(tail.drop_first() =~= bytes@.skip(i + 1));
            push_char(&mut out, c);
            proof {
                lemma_out_step(out@, c, url_decode_bytes(bytes@.skip(i + 1)));
            }
            i = i + 1;
        }
    }
    proof {
        assert(bytes@.skip(i as int) =~= Seq::<u8>::empty());
        assert(url_decode_bytes(Seq::<u8>::empty()) == Some(Seq::<char>::empty()));
        assert(out@ + Seq::<char>::empty() =~= out@);
    }
    Ok(out)
}

/// After pushing `c`, prepending the old text plus `c` to a tail is the same
/// as prepending the old text to `c` followed by the tail.
proof fn lemma_out_step(pushed: Seq<char>, c: char, rest: Option<Seq<char>>)
    requires
        pushed.len() > 0,
        c == pushed[pushed.len() - 1],
    ensures
        (match rest {
            Some(t) => pushed.drop_last() + (seq![c] + t) =~= pushed + t,
            None => true,
        }),
{
    match rest {
        Some(t) => {
            assert(pushed.drop_last() + (seq![c] + t) =~= pushed + t);
        },
        None => {},
    }
}


/// The minimal percent-encoding of raw path bytes: `%` and `+` become their
/// two-digit escapes, every other byte stands for itself.
pub open spec fn url_encode_bytes(b: Seq<u8>) -> Seq<u8>
    decreases b.len(),
{
    if b.len() == 0 {
        Seq::<u8>::empty()
    } else {
        let head = if b[0] == 37 {
            seq![37u8, 50u8, 53u8]
        } else if b[0] == 43 {
            seq![37u8, 50u8, 98u8]
        } else {
            seq![b[0]]
        };
        head + url_encode_bytes(b.drop_first())
    }
}

/// Each byte read as the character with that code.
pub open spec fn chars_of_bytes(b: Seq<u8>) -> Seq<char> {
    b.map_values(|x: u8| (x as char))
}

/// Decoding an encoded path gives back exactly the path: the round trip of
/// a valid path string through the percent escaping.
pub proof fn law_url_round_trip(b: Seq<u8>)
    ensures
        url_decode_bytes(url_encode_bytes(b)) == Some(chars_of_bytes(b)),
    decreases b.len(),
{
    if b.len() == 0 {
        assert(url_encode_bytes(b) =~= Seq::<u8>::empty());
        assert(chars_of_bytes(b) =~= Seq::<char>::empty());
    } else {
        law_url_round_trip(b.drop_first());
        let rest = url_encode_bytes(b.drop_first());
        let enc = url_encode_bytes(b);
        if b[0] == 37 {
            let head = seq![37u8, 50u8, 53u8];
            assert(enc =~= head + rest);
            assert(enc[0] == 37);
            assert(enc.drop_first() =~= seq![50u8, 53u8] + rest);
            let tail = enc.drop_first();
            assert(tail[0] == 50 && tail[1] == 53);
            assert(is_hex_digit_byte(50) && is_hex_digit_byte(53));
            assert(convert_percent_spec(tail) == Some((37u8, 2int)));
            assert(enc.skip(3) =~= rest);
            assert(seq![37u8 as char] + chars_of_bytes(b.drop_first()) =~= chars_of_bytes(b));
        } else if b[0] == 43 {
            let head = seq![37u8, 50u8, 98u8];
            assert(enc =~= head + rest);
            assert(enc[0] == 37);
            let tail = enc.drop_first();
            assert(tail =~= seq![50u8, 98u8] + rest);
            assert(tail[0] == 50 && tail[1] == 98);
            assert(is_hex_digit_byte(50) && is_hex_digit_byte(98));
            assert(convert_percent_spec(tail) == Some((43u8, 2int)));
            assert(enc.skip(3) =~= rest);
            assert(seq![43u8 as char] + chars_of_bytes(b.drop_first()) =~= chars_of_bytes(b));
        } else {
            assert(enc =~= seq![b[0]] + rest);
            assert(enc[0] == b[0]);
            assert(enc[0] != 37 && enc[0] != 43);
            assert(enc.drop_first() =~= rest);
            assert(seq![b[0] as char] + chars_of_bytes(b.drop_first()) =~= chars_of_bytes(b));
        }
    }
}

} // verus!
