use vstd::prelude::*;

verus! {

use vstd::string::StrSliceExecFns;

/// One parsed element of a `Range: bytes=S-E` header.
pub struct Range {
    pub start_byte: u64,
    pub end_byte: Option<u64>,
}

/// The chunk a resolved range request serves, with its place in the encoding.
pub struct ContentRange {
    pub start_byte: u64,
    pub end_byte: u64,
    pub index: usize,
    pub total: u64,
}

/// The whitespace characters `str::trim` removes.
pub open spec fn is_space_char(c: char) -> bool {
    let u = c as u32;
    u == 9 || u == 10 || u == 11 || u == 12 || u == 13 || u == 32 || u == 133 || u == 160 || u
        == 0x1680 || (0x2000 <= u <= 0x200A) || u == 0x2028 || u == 0x2029 || u == 0x202F || u
        == 0x205F || u == 0x3000
}

pub open spec fn is_digit_char(c: char) -> bool {
    48 <= (c as u32) <= 57
}

/// Every character is a decimal digit.
pub open spec fn all_digits(s: Seq<char>) -> bool {
    forall|j: int| 0 <= j < s.len() ==> is_digit_char(s[j])
}

pub open spec fn trim_start_spec(s: Seq<char>) -> Seq<char>
    decreases s.len(),
{
    if s.len() > 0 && is_space_char(s[0]) {
        trim_start_spec(s.drop_first())
    } else {
        s
    }
}

pub open spec fn trim_end_spec(s: Seq<char>) -> Seq<char>
    decreases s.len(),
{
    if s.len() > 0 && is_space_char(s.last()) {
        trim_end_spec(s.drop_last())
    } else {
        s
    }
}

/// What `str::trim` leaves: the text without leading and trailing whitespace.
pub open spec fn trim_spec(s: Seq<char>) -> Seq<char> {
    trim_end_spec(trim_start_spec(s))
}

/// The text with its first `bytes=` occurrence removed; the prefix is
/// stripped at most once per segment.
pub open spec fn strip_bytes_eq(s: Seq<char>) -> Seq<char>
    decreases s.len(),
{
    if s.len() == 0 {
        s
    } else if s.len() >= 6 && s.take(6) == "bytes="@ {
        s.skip(6)
    } else {
        seq![s[0]] + strip_bytes_eq(s.drop_first())
    }
}

/// The segments of the text split on a separator; never empty, and one more
/// segment than there are separators.
pub open spec fn split_on(s: Seq<char>, sep: char) -> Seq<Seq<char>>
    decreases s.len(),
{
    if s.len() == 0 {
        seq![Seq::<char>::empty()]
    } else if s[0] == sep {
        seq![Seq::<char>::empty()] + split_on(s.drop_first(), sep)
    } else {
        let r = split_on(s.drop_first(), sep);
        r.update(0, seq![s[0]] + r[0])
    }
}

pub proof fn lemma_split_on_len(s: Seq<char>, sep: char)
    ensures
        split_on(s, sep).len() >= 1,
    decreases s.len(),
{
    if s.len() == 0 {
    } else {
        lemma_split_on_len(s.drop_first(), sep);
    }
}

/// The value of a digit string, most significant digit first.
pub open spec fn dec_value(s: Seq<char>) -> nat
    decreases s.len(),
{
    if s.len() == 0 {
        0
    } else {
        (dec_value(s.drop_last()) * 10 + ((s.last() as u32) - 48)) as nat
    }
}

/// The digits of a number once an optional leading `+` sign is stripped.
pub open spec fn sign_stripped(s: Seq<char>) -> Seq<char> {
    if s.len() >= 1 && s[0] == '+' {
        s.drop_first()
    } else {
        s
    }
}

/// What `str::parse::<u64>` accepts: an optional `+` sign, then one or more
/// decimal digits whose value fits in the type.
pub open spec fn parse_u64_spec(s: Seq<char>) -> Option<u64> {
    if sign_stripped(s).len() == 0 || !all_digits(sign_stripped(s)) {
        None
    } else if dec_value(sign_stripped(s)) > u64::MAX {
        None
    } else {
        Some(dec_value(sign_stripped(s)) as u64)
    }
}

/// One segment between commas: `bytes=` stripped, split on `-`, both sides
/// trimmed, the start parsed, the end kept only if it parses.
pub open spec fn parse_segment_spec(seg: Seq<char>) -> Option<(u64, Option<u64>)> {
    let parts = split_on(strip_bytes_eq(seg), '-');
    if parts.len() < 2 {
        None
    } else {
        match parse_u64_spec(trim_spec(parts[0])) {
            Some(st) => match parse_u64_spec(trim_spec(parts[1])) {
                Some(e) => Some((st, Some(e))),
                None => Some((st, None)),
            },
            None => None,
        }
    }
}

/// The whole header value: comma-separated segments, all or nothing.
pub open spec fn get_ranges_spec(s: Seq<char>) -> Option<Seq<(u64, Option<u64>)>> {
    get_ranges_from(split_on(s, ','), 0)
}

pub open spec fn get_ranges_from(segs: Seq<Seq<char>>, i: int) -> Option<Seq<(u64, Option<u64>)>>
    decreases segs.len() - i,
{
    if i >= segs.len() {
        Some(Seq::<(u64, Option<u64>)>::empty())
    } else {
        match parse_segment_spec(segs[i]) {
            Some(p) => match get_ranges_from(segs, i + 1) {
                Some(rest) => Some(seq![p] + rest),
                None => None,
            },
            None => None,
        }
    }
}

fn is_space(c: char) -> (r: bool)
    ensures
        r == is_space_char(c),
{
    let u = c as u32;
    u == 9 || u == 10 || u == 11 || u == 12 || u == 13 || u == 32 || u == 133 || u == 160 || u
        == 0x1680 || (0x2000 <= u && u <= 0x200A) || u == 0x2028 || u == 0x2029 || u == 0x202F || u
        == 0x205F || u == 0x3000
}

/// The characters of a string, in order.
pub fn chars_vec(s: &str) -> (v: Vec<char>)
    ensures
        v@ == s@,
{
    let n = s.unicode_len();
    let mut v: Vec<char> = Vec::new();
    let mut i: usize = 0;
    while i < n
        invariant
            i <= n,
            n == s@.len(),
            v@ == s@.take(i as int),
        decreases n - i,
    {
        v.push(s.get_char(i));
        proof {
            assert(s@.take(i + 1) =~= s@.take(i as int).push(s@[i as int]));
        }
        i = i + 1;
    }
    proof {
        assert(s@.take(n as int) =~= s@);
    }
    v
}

pub fn trim_chars(v: &Vec<char>) -> (r: Vec<char>)
    ensures
        r@ == trim_spec(v@),
{
    let n = v.len();
    let mut st: usize = 0;
    proof {
        assert(v@.skip(0) =~= v@);
    }
    while st < n && is_space(v[st])
        invariant
            n == v@.len(),
            st <= n,
            trim_start_spec(v@) == trim_start_spec(v@.skip(st as int)),
        decreases n - st,
    {
        proof {
            assert(v@.skip(st as int).drop_first() =~= v@.skip(st + 1));
        }
        st = st + 1;
    }
    let ghost t = v@.skip(st as int);
    proof {
        assert(trim_start_spec(v@.skip(st as int)) == v@.skip(st as int));
    }
    let mut hi: usize = n - st;
    proof {
        assert(t.take(hi as int) =~= t);
    }
    while hi > 0 && is_space(v[st + (hi - 1)])
        invariant
            n == v@.len(),
            hi <= n - st,
            st <= n,
            t == v@.skip(st as int),
            trim_end_spec(t) == trim_end_spec(t.take(hi as int)),
        decreases hi,
    {
        proof {
            assert(t.take(hi as int).last() == v@[st + (hi - 1)]);
            assert(t.take(hi as int).drop_last() =~= t.take(hi - 1));
        }
        hi = hi - 1;
    }
    proof {
        if hi > 0 {
            assert(t.take(hi as int).last() == v@[st + (hi - 1)]);
        }
        assert(trim_end_spec(t.take(hi as int)) == t.take(hi as int));
    }
    let mut r: Vec<char> = Vec::new();
    let mut j: usize = 0;
    while j < hi
        invariant
            n == v@.len(),
            j <= hi,
            hi <= n - st,
            st <= n,
            t == v@.skip(st as int),
            r@ == t.take(hi as int).take(j as int),
        decreases hi - j,
    {
        r.push(v[st + j]);
        proof {
            assert(t.take(hi as int).take(j + 1) =~= t.take(hi as int).take(j as int).push(
                v@[st + j],
            ));
        }
        j = j + 1;
    }
    proof {
        assert(t.take(hi as int).take(hi as int) =~= t.take(hi as int));
    }
    r
}

/// Whether `bytes=` stands at position `i`.
fn matches_bytes_eq(v: &Vec<char>, i: usize) -> (r: bool)
    requires
        i <= v@.len(),
    ensures
        r == (v@.skip(i as int).len() >= 6 && v@.skip(i as int).take(6) == "bytes="@),
{
    proof {
        reveal_strlit("bytes=");
    }
    if v.len() - i >= 6 {
        let m = v[i] == 'b' && v[i + 1] == 'y' && v[i + 2] == 't' && v[i + 3] == 'e' && v[i + 4]
            == 's' && v[i + 5] == '=';
        proof {
            let tail = v@.skip(i as int);
            if m {
                assert(tail.take(6) =~= "bytes="@);
            } else {
                if tail.take(6) == "bytes="@ {
                    assert(tail.take(6)[0] == 'b' && tail.take(6)[1] == 'y' && tail.take(6)[2]
                        == 't' && tail.take(6)[3] == 'e' && tail.take(6)[4] == 's' && tail.take(
                        6,
                    )[5] == '=');
                    assert(false);
                }
            }
        }
        m
    } else {
        false
    }
}

fn strip_bytes_from(v: &Vec<char>, i: usize) -> (r: Vec<char>)
    requires
        i <= v@.len(),
    ensures
        r@ == strip_bytes_eq(v@.skip(i as int)),
    decreases v@.len() - i,
{
    if i == v.len() {
        proof {
            assert(v@.skip(i as int) =~= Seq::<char>::empty());
        }
        Vec::new()
    } else if matches_bytes_eq(v, i) {
        let mut r: Vec<char> = Vec::new();
        let mut t: usize = i + 6;
        proof {
            assert(r@ =~= v@.subrange(i + 6, i + 6));
        }
        while t < v.len()
            invariant
                i + 6 <= t <= v@.len(),
                r@ == v@.subrange(i + 6, t as int),
            decreases v@.len() - t,
        {
            r.push(v[t]);
            proof {
                assert(v@.subrange(i + 6, t + 1) =~= v@.subrange(i + 6, t as int).push(
                    v@[t as int],
                ));
            }
            t = t + 1;
        }
        proof {
            assert(v@.subrange(i + 6, v@.len() as int) =~= v@.skip(i + 6));
            assert(v@.skip(i as int).skip(6) =~= v@.skip(i + 6));
        }
        r
    } else {
        let mut r = strip_bytes_from(v, i + 1);
        r.insert(0, v[i]);
        proof {
            assert(v@.skip(i as int).drop_first() =~= v@.skip(i + 1));
            assert(r@ =~= seq![v@[i as int]] + strip_bytes_eq(v@.skip(i + 1)));
        }
        r
    }
}

pub fn split_chars_from(v: &Vec<char>, i: usize, sep: char) -> (r: Vec<Vec<char>>)
    requires
        i <= v@.len(),
    ensures
        r@.map_values(|x: Vec<char>| x@) == split_on(v@.skip(i as int), sep),
        r@.len() >= 1,
    decreases v@.len() - i,
{
    if i == v.len() {
        proof {
            assert(v@.skip(i as int) =~= Seq::<char>::empty());
        }
        let mut r: Vec<Vec<char>> = Vec::new();
        r.push(Vec::new());
        proof {
            assert(r@.map_values(|x: Vec<char>| x@) =~= split_on(v@.skip(i as int), sep));
        }
        r
    } else if v[i] == sep {
        let mut r = split_chars_from(v, i + 1, sep);
        r.insert(0, Vec::new());
        proof {
            assert(v@.skip(i as int).drop_first() =~= v@.skip(i + 1));
            assert(r@.map_values(|x: Vec<char>| x@) =~= seq![Seq::<char>::empty()] + split_on(
                v@.skip(i + 1),
                sep,
            ));
        }
        r
    } else {
        let mut r = split_chars_from(v, i + 1, sep);
        let ghost r0 = r@;
        let mut head = r.remove(0);
        let ghost head0 = head@;
        head.insert(0, v[i]);
        let ghost head1 = head@;
        r.insert(0, head);
        proof {
            let f = |x: Vec<char>| x@;
            let tail = v@.skip(i as int);
            assert(tail.drop_first() =~= v@.skip(i + 1));
            let sub = split_on(v@.skip(i + 1), sep);
            assert(r0.map_values(f) == sub);
            assert(head0 == r0.map_values(f)[0]);
            assert(head1 =~= seq![v@[i as int]] + head0);
            let m = r@.map_values(f);
            assert(m.len() == sub.len());
            assert(m[0] == head1);
            assert forall|k: int| 1 <= k < m.len() implies m[k] == sub[k] by {
                assert(r@[k] == r0.remove(0)[k - 1]);
                assert(r0.remove(0)[k - 1] == r0[k]);
                assert(m[k] == f(r0[k]));
                assert(sub[k] == r0.map_values(f)[k]);
            }
            assert(m =~= sub.update(0, seq![v@[i as int]] + sub[0]));
            assert(split_on(tail, sep) == sub.update(0, seq![tail[0]] + sub[0]));
        }
        r
    }
}

/// The value of the digit string `v[0..hi]`, unless it exceeds the type.
fn dec_chars_value(v: &Vec<char>, hi: usize) -> (r: Option<u64>)
    requires
        hi <= v@.len(),
        forall|j: int| 0 <= j < hi ==> is_digit_char(v@[j]),
    ensures
        (match r {
            Some(x) => x == dec_value(v@.take(hi as int)),
            None => dec_value(v@.take(hi as int)) > u64::MAX,
        }),
    decreases hi,
{
    if hi == 0 {
        proof {
            assert(v@.take(0) =~= Seq::<char>::empty());
        }
        Some(0)
    } else {
        let prefix = dec_chars_value(v, hi - 1);
        proof {
            assert(v@.take(hi as int).drop_last() =~= v@.take(hi - 1));
            assert(v@.take(hi as int).last() == v@[hi - 1]);
        }
        match prefix {
            Some(p) => {
                let c = v[hi - 1];
                let d: u64 = ((c as u32) - 48) as u64;
                match p.checked_mul(10) {
                    Some(m) => match m.checked_add(d) {
                        Some(x) => Some(x),
                        None => None,
                    },
                    None => None,
                }
            },
            None => None,
        }
    }
}

/// Parses a decimal number as `str::parse::<u64>` does.
pub fn parse_u64_chars(v: &Vec<char>) -> (r: Option<u64>)
    ensures
        r == parse_u64_spec(v@),
{
    let mut lo: usize = 0;
    if v.len() >= 1 && v[0] == '+' {
        lo = 1;
    }
    let ghost digits = sign_stripped(v@);
    proof {
        assert(v@.skip(lo as int) =~= digits);
    }
    if v.len() - lo == 0 {
        assert(parse_u64_spec(v@) is None);
        return None;
    }
    let mut j: usize = lo;
    while j < v.len()
        invariant
            lo <= j <= v@.len(),
            digits == v@.skip(lo as int),
            digits == sign_stripped(v@),
            forall|t: int| lo <= t < j ==> is_digit_char(v@[t]),
        decreases v@.len() - j,
    {
        let c = v[j];
        if !(48 <= (c as u32) && (c as u32) <= 57) {
            proof {
                assert(digits[j - lo] == v@[j as int]);
                assert(!is_digit_char(digits[j - lo]));
                assert(!all_digits(digits));
                assert(parse_u64_spec(v@) is None);
            }
            return None;
        }
        j = j + 1;
    }
    assert(all_digits(digits));
    let mut w: Vec<char> = Vec::new();
    let mut m: usize = lo;
    while m < v.len()
        invariant
            lo <= m <= v@.len(),
            digits == v@.skip(lo as int),
            digits == sign_stripped(v@),
            w@ == digits.take(m - lo),
            forall|t: int| lo <= t < v@.len() ==> is_digit_char(v@[t]),
        decreases v@.len() - m,
    {
        w.push(v[m]);
        proof {
            assert(digits.take(m + 1 - lo) =~= digits.take(m - lo).push(v@[m as int]));
        }
        m = m + 1;
    }
    proof {
        assert(digits.take(v@.len() - lo) =~= digits);
    }
    let r = dec_chars_value(&w, w.len());
    proof {
        assert(w@.take(w@.len() as int) =~= w@);
    }
    r
}

/// Parses one comma-separated segment of the header.
fn parse_segment(seg: &Vec<char>) -> (r: Option<Range>)
    ensures
        (match r {
            Some(rg) => parse_segment_spec(seg@) == Some((rg.start_byte, rg.end_byte)),
            None => parse_segment_spec(seg@) is None,
        }),
{
    let cleaned = strip_bytes_from(seg, 0);
    proof {
        assert(seg@.skip(0) =~= seg@);
    }
    let parts = split_chars_from(&cleaned, 0, '-');
    proof {
        assert(cleaned@.skip(0) =~= cleaned@);
    }
    if parts.len() < 2 {
        return None;
    }
    let p0 = trim_chars(&parts[0]);
    let p1 = trim_chars(&parts[1]);
    proof {
        let specparts = split_on(strip_bytes_eq(seg@), '-');
        assert(parts@.map_values(|x: Vec<char>| x@)[0] == specparts[0]);
        assert(parts@.map_values(|x: Vec<char>| x@)[1] == specparts[1]);
    }
    match parse_u64_chars(&p0) {
        Some(st) => match parse_u64_chars(&p1) {
            Some(e) => Some(Range { start_byte: st, end_byte: Some(e) }),
            None => Some(Range { start_byte: st, end_byte: None }),
        },
        None => None,
    }
}

/// Parses a `Range` header value of the form `bytes=S-E[, S-E]*`. Parsing is
/// all or nothing: one bad segment discards the whole header.
pub fn get_ranges(range_header_value: &str) -> (r: Option<Vec<Range>>)
    ensures
        (match r {
            Some(v) => get_ranges_spec(range_header_value@) == Some(
                v@.map_values(|rg: Range| (rg.start_byte, rg.end_byte)),
            ) && v@.len() >= 1,
            None => get_ranges_spec(range_header_value@) is None,
        }),
{
    let chars = chars_vec(range_header_value);
    let segs = split_chars_from(&chars, 0, ',');
    proof {
        assert(chars@.skip(0) =~= chars@);
    }
    let ghost specsegs = split_on(range_header_value@, ',');
    let mut out: Vec<Range> = Vec::new();
    let mut i: usize = 0;
    proof {
        let f = |rg: Range| (rg.start_byte, rg.end_byte);
        match get_ranges_from(specsegs, 0) {
            Some(rest) => {
                assert(out@.map_values(f) + rest =~= rest);
            },
            None => {},
        }
    }
    while i < segs.len()
        invariant
            i <= segs@.len(),
            specsegs == split_on(range_header_value@, ','),
            segs@.map_values(|x: Vec<char>| x@) == specsegs,
            (match get_ranges_from(specsegs, i as int) {
                Some(rest) => get_ranges_from(specsegs, 0) == Some(
                    out@.map_values(|rg: Range| (rg.start_byte, rg.end_byte)) + rest,
                ),
                None => get_ranges_from(specsegs, 0) is None,
            }),
            out@.len() == i,
        decreases segs@.len() - i,
    {
        let ghost oldout = out@;
        match parse_segment(&segs[i]) {
            Some(rg) => {
                proof {
                    assert(segs@.map_values(|x: Vec<char>| x@)[i as int] == specsegs[i as int]);
                }
                out.push(rg);
                proof {
                    let f = |rg: Range| (rg.start_byte, rg.end_byte);
                    match get_ranges_from(specsegs, i + 1) {
                        Some(rest) => {
                            assert(oldout.map_values(f) + (seq![f(rg)] + rest) =~= out@.map_values(
                                f,
                            ) + rest);
                        },
                        None => {},
                    }
                }
            },
            None => {
                proof {
                    assert(segs@.map_values(|x: Vec<char>| x@)[i as int] == specsegs[i as int]);
                    assert(parse_segment_spec(specsegs[i as int]) is None);
                    assert(get_ranges_from(specsegs, i as int) is None);
                }
                return None;
            },
        }
        i = i + 1;
    }
    proof {
        let f = |rg: Range| (rg.start_byte, rg.end_byte);
        assert(out@.map_values(f) + Seq::<(u64, Option<u64>)>::empty() =~= out@.map_values(f));
        lemma_split_on_len(range_header_value@, ',');
    }
    Some(out)
}

} // verus!
