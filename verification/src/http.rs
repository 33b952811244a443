use vstd::prelude::*;

verus! {

use crate::ext::{dec_str, push_char, u64_to_string};
use crate::range::{chars_vec, ContentRange, Range};
use crate::state::{
    chunk_at_ok, enc_layout_ok, first_priority_present, prefix_len, tree_label, State,
};
use crate::table::str_eq;
use crate::tree::{
    b64_encode, b64_of, cbor_of, cbor_tree, merge_hash_trees, rb_view, rb_witness, rb_witness_of,
    spec_merge, SpecTree, WitnessTree,
};
use crate::types::{
    Asset, AssetEncoding, CallbackFunc, ContentChunk, Error, HttpRequest, HttpResponse, RcBytes,
    StreamingCallbackHttpResponse, StreamingCallbackToken, StreamingStrategy,
};
use vstd::string::StringSliceAdditionalSpecFns;
use vstd::string::StringExecFns;
use vstd::string::StrSliceExecFns;

/// The path served when a requested path is missing.
pub open spec fn index_file() -> Seq<char> {
    "/index.html"@
}

/// Builds a String out of computed characters.
pub fn chars_to_string(v: &Vec<char>) -> (s: String)
    ensures
        s@ == v@,
{
    let mut s = String::new();
    let mut i: usize = 0;
    let n = v.len();
    while i < n
        invariant
            i <= n,
            n == v@.len(),
            s@ == v@.take(i as int),
        decreases n - i,
    {
        push_char(&mut s, v[i]);
        proof {
            assert(v@.take(i + 1) =~= v@.take(i as int).push(v@[i as int]));
        }
        i = i + 1;
    }
    proof {
        assert(v@.take(n as int) =~= v@);
    }
    s
}

pub open spec fn lower_char(c: char) -> char {
    if 65 <= (c as u32) <= 90 {
        (((c as u32) + 32) as char)
    } else {
        c
    }
}

/// ASCII-case-insensitive equality of two names.
pub open spec fn eq_icase(a: Seq<char>, b: Seq<char>) -> bool {
    a.len() == b.len() && (forall|i: int| 0 <= i < a.len() ==> lower_char(a[i]) == lower_char(b[i]))
}

pub fn str_eq_icase(a: &str, b: &str) -> (r: bool)
    ensures
        r == eq_icase(a@, b@),
{
    let av = chars_vec(a);
    let bv = chars_vec(b);
    if av.len() != bv.len() {
        return false;
    }
    let mut i: usize = 0;
    let n = av.len();
    while i < n
        invariant
            i <= n,
            n == av@.len(),
            av@.len() == bv@.len(),
            av@ == a@,
            bv@ == b@,
            forall|j: int| 0 <= j < i ==> lower_char(a@[j]) == lower_char(b@[j]),
        decreases n - i,
    {
        let ca = av[i];
        let cb = bv[i];
        let la: u32 = if 65 <= (ca as u32) && (ca as u32) <= 90 {
            (ca as u32) + 32
        } else {
            ca as u32
        };
        let lb: u32 = if 65 <= (cb as u32) && (cb as u32) <= 90 {
            (cb as u32) + 32
        } else {
            cb as u32
        };
        if la != lb {
            proof {
                vstd::utf8::char_is_scalar(ca);
                vstd::utf8::char_is_scalar(cb);
                vstd::utf8::char_u32_cast(ca, ca as u32);
                vstd::utf8::char_u32_cast(cb, cb as u32);
                assert(lower_char(a@[i as int]) != lower_char(b@[i as int]));
            }
            return false;
        }
        proof {
            vstd::utf8::char_u32_cast(ca, ca as u32);
            vstd::utf8::char_u32_cast(cb, cb as u32);
            assert(lower_char(a@[i as int]) == lower_char(b@[i as int]));
        }
        i = i + 1;
    }
    true
}

/// The part of the url before the first `?`.
pub open spec fn path_of(s: Seq<char>) -> Seq<char>
    decreases s.len(),
{
    if s.len() == 0 {
        s
    } else if s[0] == '?' {
        Seq::<char>::empty()
    } else {
        seq![s[0]] + path_of(s.drop_first())
    }
}

/// Strips the query from a url.
pub fn strip_query(url: &str) -> (r: String)
    ensures
        r@ == path_of(url@),
{
    let v = chars_vec(url);
    let mut out: Vec<char> = Vec::new();
    let mut i: usize = 0;
    let n = v.len();
    proof {
        assert(v@.skip(0) =~= v@);
        assert(v@.take(0) =~= Seq::<char>::empty());
        assert(Seq::<char>::empty() + path_of(v@) =~= path_of(v@));
    }
    while i < n
        invariant
            i <= n,
            n == v@.len(),
            v@ == url@,
            path_of(url@) == (out@ + path_of(v@.skip(i as int))),
            forall|j: int| 0 <= j < i ==> v@[j] != '?',
            out@ == v@.take(i as int),
        decreases n - i,
    {
        proof {
            assert(v@.skip(i as int)[0] == v@[i as int]);
            assert(v@.skip(i as int).drop_first() =~= v@.skip(i + 1));
        }
        if v[i] == '?' {
            proof {
                assert(path_of(v@.skip(i as int)) =~= Seq::<char>::empty());
                assert(out@ + Seq::<char>::empty() =~= out@);
            }
            return chars_to_string(&out);
        }
        out.push(v[i]);
        proof {
            assert(v@.take(i + 1) =~= v@.take(i as int).push(v@[i as int]));
            assert(out@ + path_of(v@.skip(i + 1)) =~= out@.drop_last() + (seq![v@[i as int]]
                + path_of(v@.skip(i + 1))));
        }
        i = i + 1;
    }
    proof {
        assert(v@.skip(n as int) =~= Seq::<char>::empty());
        assert(path_of(Seq::<char>::empty()) =~= Seq::<char>::empty());
        assert(out@ + Seq::<char>::empty() =~= out@);
        assert(v@.take(n as int) =~= v@);
    }
    chars_to_string(&out)
}

/// The text of one chunk index's serialized witness: empty when the tree or
/// the entry is missing.
pub open spec fn chunk_witness_text(st: State, key: Seq<char>, index: nat) -> Seq<char> {
    if st.chunk_hashes@.contains_key(key) && rb_view(st.chunk_hashes@[key]).contains_key(
        dec_str(index),
    ) {
        b64_of(cbor_of(rb_witness_of(st.chunk_hashes@[key], dec_str(index))@))
    } else {
        Seq::<char>::empty()
    }
}

/// The serialized witness for one chunk index of a key's chunk tree: empty
/// text when the tree or the entry is missing.
pub fn chunk_witness_or_empty(st: &State, key: &String, index: u64) -> (r: String)
    requires
        st.inv(),
    ensures
        r@ == chunk_witness_text(*st, key@, index as nat),
{
    let tree = match st.chunk_hashes.get(key.as_str()) {
        Some(t) => t,
        None => {
            return String::new();
        },
    };
    let ks = u64_to_string(index);
    match crate::tree::rb_get(tree, ks.as_str()) {
        Some(_) => {
            let w = rb_witness(tree, ks.as_str());
            let bytes = cbor_tree(&w);
            b64_encode(&bytes)
        },
        None => String::new(),
    }
}

/// The serialized witness for one chunk index; the asset must have a chunk
/// tree.
pub fn get_serialized_chunk_witness(st: &State, key: &String, index: u64) -> (r: Result<
    String,
    Error,
>)
    requires
        st.inv(),
    ensures
        (match r {
            Ok(s) => st.chunk_hashes@.contains_key(key@) && (if rb_view(
                st.chunk_hashes@[key@],
            ).contains_key(dec_str(index as nat)) {
                s@ == b64_of(
                    cbor_of(rb_witness_of(st.chunk_hashes@[key@], dec_str(index as nat))@),
                )
            } else {
                s@ == Seq::<char>::empty()
            }),
            Err(e) => e == Error::AssetNotFoundInChunksMap && !st.chunk_hashes@.contains_key(key@),
        }),
{
    if !st.chunk_hashes.contains_key(key.as_str()) {
        return Err(Error::AssetNotFoundInChunksMap);
    }
    Ok(chunk_witness_or_empty(st, key, index))
}

/// The exact text of the certificate header for a witness, a serialized
/// chunk witness and a chunk index.
pub open spec fn cert_header_value(
    certificate: Seq<u8>,
    witness: SpecTree,
    chunk_tree: Seq<char>,
    chunk_index: nat,
) -> Seq<char> {
    "certificate=:"@ + b64_of(certificate) + ":, tree=:"@ + b64_of(
        cbor_of(SpecTree::Labeled(tree_label(), Box::new(witness))),
    ) + ":, chunk_tree=:"@ + chunk_tree + ":, chunk_index=:"@ + dec_str(chunk_index) + ":"@
}

/// Wraps a witness under the tree label and encodes the certificate header.
pub fn witness_to_header(
    witness: WitnessTree,
    chunk_tree: &String,
    chunk_index: u64,
    certificate: &Vec<u8>,
) -> (r: (String, String))
    requires
        witness.wf(),
    ensures
        r.0@ == "IC-Certificate"@,
        r.1@ == cert_header_value(certificate@, witness@, chunk_tree@, chunk_index as nat),
{
    let label: Vec<u8> = "http_assets".as_bytes_vec();
    let labeled = WitnessTree::Labeled(label, Box::new(witness));
    let tree_ser = cbor_tree(&labeled);
    let mut value = String::new();
    value.append("certificate=:");
    value.append(b64_encode(certificate).as_str());
    value.append(":, tree=:");
    value.append(b64_encode(&tree_ser).as_str());
    value.append(":, chunk_tree=:");
    value.append(chunk_tree.as_str());
    value.append(":, chunk_index=:");
    value.append(u64_to_string(chunk_index).as_str());
    value.append(":");
    ("IC-Certificate".to_owned(), value)
}

/// The continuation token, present exactly when more chunks follow.
pub fn create_token(enc_name: &String, enc: &AssetEncoding, key: &String, chunk_index: usize) -> (r:
    Option<StreamingCallbackToken>)
    requires
        chunk_index < enc.content_chunks@.len(),
    ensures
        (match r {
            Some(t) => chunk_index + 1 < enc.content_chunks@.len() && t.key@ == key@
                && t.content_encoding@ == enc_name@ && t.index == chunk_index + 1 && (match t.sha256 {
                Some(s) => s@ == enc.sha256@,
                None => false,
            }),
            None => chunk_index + 1 >= enc.content_chunks@.len(),
        }),
{
    let n = enc.content_chunks.len();
    if chunk_index + 1 >= n {
        None
    } else {
        Some(
            StreamingCallbackToken {
                key: key.clone(),
                content_encoding: enc_name.clone(),
                index: (chunk_index + 1) as u64,
                sha256: Some(enc.sha256.clone()),
            },
        )
    }
}

/// The streaming strategy: a callback reference to this canister plus the
/// continuation token.
pub fn create_strategy(
    enc_name: &String,
    enc: &AssetEncoding,
    key: &String,
    chunk_index: usize,
    self_principal: &Vec<u8>,
) -> (r: Option<StreamingStrategy>)
    requires
        chunk_index < enc.content_chunks@.len(),
    ensures
        (match r {
            Some(s) => chunk_index + 1 < enc.content_chunks@.len() && (match s {
                StreamingStrategy::Callback { callback, token } => callback.principal@
                    == self_principal@ && callback.method@ == "http_request_streaming_callback"@
                    && token.key@ == key@ && token.content_encoding@ == enc_name@ && token.index
                    == chunk_index + 1 && (match token.sha256 {
                    Some(sh) => sh@ == enc.sha256@,
                    None => false,
                }),
            }),
            None => chunk_index + 1 >= enc.content_chunks@.len(),
        }),
{
    match create_token(enc_name, enc, key, chunk_index) {
        Some(token) => Some(
            StreamingStrategy::Callback {
                callback: CallbackFunc {
                    principal: self_principal.clone(),
                    method: "http_request_streaming_callback".to_owned(),
                },
                token,
            },
        ),
        None => None,
    }
}

/// The header list every successful response starts with.
pub open spec fn base_headers(
    content_type: Seq<char>,
    enc_name: Seq<char>,
    cert: Option<(String, String)>,
) -> Seq<(Seq<char>, Seq<char>)> {
    let first = seq![("Content-Type"@, content_type)];
    let with_enc = if enc_name != "identity"@ {
        first + seq![("Content-Encoding"@, enc_name)]
    } else {
        first
    };
    match cert {
        Some(h) => with_enc + seq![(h.0@, h.1@)],
        None => with_enc,
    }
}

pub open spec fn headers_view(h: Seq<(String, String)>) -> Seq<(Seq<char>, Seq<char>)> {
    h.map_values(|p: (String, String)| (p.0@, p.1@))
}

/// The full header list of a served response: Content-Type first, the
/// requested encoding's name when it is not identity, then the certificate.
pub open spec fn served_headers(
    content_type: Seq<char>,
    enc_name: Seq<char>,
    cert_value: Seq<char>,
) -> Seq<(Seq<char>, Seq<char>)> {
    (if enc_name != "identity"@ {
        seq![("Content-Type"@, content_type), ("Content-Encoding"@, enc_name)]
    } else {
        seq![("Content-Type"@, content_type)]
    }) + seq![("IC-Certificate"@, cert_value)]
}

/// The two trailing headers of a partial response.
pub open spec fn range_headers(start: u64, end: u64, total: u64) -> Seq<(Seq<char>, Seq<char>)> {
    seq![
        (
            "Content-Range"@,
            "bytes "@ + dec_str(start as nat) + "-"@ + dec_str(end as nat) + "/"@ + dec_str(
                total as nat,
            ),
        ),
        ("Accept-Ranges"@, "bytes"@),
    ]
}

/// The pair a parsed range request carries, if one does.
pub open spec fn range_view(r: Option<Range>) -> Option<(u64, Option<u64>)> {
    match r {
        Some(rg) => Some((rg.start_byte, rg.end_byte)),
        None => None,
    }
}

/// A full-body response serving one chunk of an encoding.
pub fn build_200(
    content_type: &String,
    enc_name: &String,
    enc: &AssetEncoding,
    key: &String,
    chunk_index: usize,
    certificate_header: Option<(String, String)>,
    self_principal: &Vec<u8>,
) -> (r: HttpResponse)
    requires
        chunk_index < enc.content_chunks@.len(),
    ensures
        r.status_code == 200,
        headers_view(r.headers@) == base_headers(content_type@, enc_name@, certificate_header),
        r.body@ == enc.content_chunks@[chunk_index as int].content@,
        (match r.streaming_strategy {
            Some(_) => chunk_index + 1 < enc.content_chunks@.len(),
            None => chunk_index + 1 >= enc.content_chunks@.len(),
        }),
{
    let mut headers: Vec<(String, String)> = Vec::new();
    headers.push(("Content-Type".to_owned(), content_type.clone()));
    if !str_eq(enc_name.as_str(), "identity") {
        headers.push(("Content-Encoding".to_owned(), enc_name.clone()));
    }
    match &certificate_header {
        Some(h) => {
            headers.push((h.0.clone(), h.1.clone()));
        },
        None => {},
    }
    let streaming_strategy = create_strategy(enc_name, enc, key, chunk_index, self_principal);
    let r = HttpResponse {
        status_code: 200,
        headers,
        body: enc.content_chunks[chunk_index].content.clone_ref(),
        streaming_strategy,
    };
    proof {
        assert(headers_view(r.headers@) =~= base_headers(
            content_type@,
            enc_name@,
            certificate_header,
        ));
    }
    r
}

/// A partial response serving the chunk the resolved range starts in,
/// with its exact byte range announced.
pub fn build_206(
    content_type: &String,
    enc_name: &String,
    enc: &AssetEncoding,
    key: &String,
    range: &ContentRange,
    certificate_header: Option<(String, String)>,
    self_principal: &Vec<u8>,
) -> (r: HttpResponse)
    requires
        range.index < enc.content_chunks@.len(),
    ensures
        r.status_code == 206,
        headers_view(r.headers@) == base_headers(content_type@, enc_name@, certificate_header)
            + seq![
            (
                "Content-Range"@,
                "bytes "@ + dec_str(range.start_byte as nat) + "-"@ + dec_str(
                    range.end_byte as nat,
                ) + "/"@ + dec_str(range.total as nat),
            ),
            ("Accept-Ranges"@, "bytes"@),
        ],
        r.body@ == enc.content_chunks@[range.index as int].content@,
        (match r.streaming_strategy {
            Some(_) => range.index + 1 < enc.content_chunks@.len(),
            None => range.index + 1 >= enc.content_chunks@.len(),
        }),
{
    let mut headers: Vec<(String, String)> = Vec::new();
    headers.push(("Content-Type".to_owned(), content_type.clone()));
    if !str_eq(enc_name.as_str(), "identity") {
        headers.push(("Content-Encoding".to_owned(), enc_name.clone()));
    }
    match &certificate_header {
        Some(h) => {
            headers.push((h.0.clone(), h.1.clone()));
        },
        None => {},
    }
    let mut cr = String::new();
    cr.append("bytes ");
    cr.append(u64_to_string(range.start_byte).as_str());
    cr.append("-");
    cr.append(u64_to_string(range.end_byte).as_str());
    cr.append("/");
    cr.append(u64_to_string(range.total).as_str());
    headers.push(("Content-Range".to_owned(), cr));
    headers.push(("Accept-Ranges".to_owned(), "bytes".to_owned()));
    let streaming_strategy = create_strategy(enc_name, enc, key, range.index, self_principal);
    let r = HttpResponse {
        status_code: 206,
        headers,
        body: enc.content_chunks[range.index].content.clone_ref(),
        streaming_strategy,
    };
    proof {
        assert(headers_view(r.headers@) =~= base_headers(
            content_type@,
            enc_name@,
            certificate_header,
        ) + seq![
            (
                "Content-Range"@,
                "bytes "@ + dec_str(range.start_byte as nat) + "-"@ + dec_str(
                    range.end_byte as nat,
                ) + "/"@ + dec_str(range.total as nat),
            ),
            ("Accept-Ranges"@, "bytes"@),
        ]);
    }
    r
}

/// The negative answer, carrying only the certificate header.
pub fn build_404(certificate_header: (String, String)) -> (r: HttpResponse)
    ensures
        r.status_code == 404,
        headers_view(r.headers@) == seq![(certificate_header.0@, certificate_header.1@)],
        r.body@ == "not found".spec_bytes(),
        r.streaming_strategy is None,
{
    let mut headers: Vec<(String, String)> = Vec::new();
    let ghost h0 = certificate_header.0@;
    let ghost h1 = certificate_header.1@;
    headers.push(certificate_header);
    let body: Vec<u8> = "not found".as_bytes_vec();
    let r = HttpResponse {
        status_code: 404,
        headers,
        body: RcBytes::from_vec(body),
        streaming_strategy: None,
    };
    proof {
        assert(headers_view(r.headers@) =~= seq![(h0, h1)]);
    }
    r
}


/// The encoding a range request resolves against: the first of the caller's
/// names that is present and either certified itself or shadowed by a
/// certified identity encoding.
pub open spec fn range_sel(
    encs: Map<Seq<char>, AssetEncoding>,
    names: Seq<String>,
    i: int,
) -> Option<int>
    decreases names.len() - i,
{
    if i < 0 || i >= names.len() {
        None
    } else if encs.contains_key(names[i]@) && (encs[names[i]@].certified || (encs.contains_key(
        "identity"@,
    ) && encs["identity"@].certified)) {
        Some(i)
    } else {
        range_sel(encs, names, i + 1)
    }
}

/// The first chunk whose byte range holds `start`, scanning from `i`.
pub open spec fn find_chunk(chunks: Seq<ContentChunk>, i: int, start: u64) -> Option<int>
    decreases chunks.len() - i,
{
    if i < 0 || i >= chunks.len() {
        None
    } else if (start as nat) < prefix_len(chunks, i) + chunks[i].content@.len() {
        Some(i)
    } else {
        find_chunk(chunks, i + 1, start)
    }
}

/// What a resolved range looks like for given inputs: missing pieces resolve
/// to a zero-filled descriptor.
pub open spec fn content_range_spec(
    range: Option<(u64, Option<u64>)>,
    encs: Map<Seq<char>, AssetEncoding>,
    names: Seq<String>,
    present: bool,
) -> (u64, u64, int, u64) {
    if range is None || !present {
        (0u64, 0u64, 0int, 0u64)
    } else {
        let sel_name = (match range_sel(encs, names, 0) {
            Some(i) => names[i]@,
            None => ""@,
        });
        if encs.contains_key(sel_name) {
            let e = encs[sel_name];
            match find_chunk(e.content_chunks@, 0, range.unwrap().0) {
                Some(idx) => (
                    e.content_chunks@[idx].start_byte,
                    e.content_chunks@[idx].end_byte,
                    idx,
                    e.total_length,
                ),
                None => if e.content_chunks@.len() >= 1 {
                    (
                        e.content_chunks@[0].start_byte,
                        e.content_chunks@[0].end_byte,
                        0int,
                        e.total_length,
                    )
                } else {
                    (0u64, 0u64, 0int, 0u64)
                },
            }
        } else {
            (0u64, 0u64, 0int, 0u64)
        }
    }
}

/// The first acceptable name for a range request, as `range_sel` picks it.
fn range_sel_exec(encs: &crate::table::Table<AssetEncoding>, names: &Vec<String>) -> (r: Option<
    usize,
>)
    requires
        encs.wf(),
    ensures
        (match r {
            Some(i) => i < names@.len() && range_sel(encs@, names@, 0) == Some(i as int),
            None => range_sel(encs@, names@, 0) is None,
        }),
{
    let mut i: usize = 0;
    let n = names.len();
    while i < n
        invariant
            i <= n,
            n == names@.len(),
            encs.wf(),
            range_sel(encs@, names@, 0) == range_sel(encs@, names@, i as int),
        decreases n - i,
    {
        let name = &names[i];
        let mut hit = false;
        match encs.get(name.as_str()) {
            Some(e) => {
                if e.certified {
                    hit = true;
                } else {
                    match encs.get("identity") {
                        Some(id_enc) => {
                            if id_enc.certified {
                                hit = true;
                            }
                        },
                        None => {},
                    }
                }
            },
            None => {},
        }
        if hit {
            proof {
                assert(range_sel(encs@, names@, i as int) == Some(i as int));
            }
            return Some(i);
        }
        i = i + 1;
    }
    None
}

/// Locates the chunk that holds the first requested byte. Missing inputs
/// yield a zero-filled descriptor rather than an error.
pub fn get_chunk_index_by_range(
    range: &Option<Range>,
    encodings: &Vec<String>,
    asset: Option<&Asset>,
) -> (r: ContentRange)
    requires
        (match asset {
            Some(a) => a.encodings.wf() && (forall|e: Seq<char>| #[trigger]
                a.encodings@.contains_key(e) ==> enc_layout_ok(a.encodings@[e])),
            None => true,
        }),
    ensures
        ({
            let spec_range = (match range {
                Some(rg) => Some((rg.start_byte, rg.end_byte)),
                None => None,
            });
            let encs = (match asset {
                Some(a) => a.encodings@,
                None => Map::<Seq<char>, AssetEncoding>::empty(),
            });
            let expect = content_range_spec(spec_range, encs, encodings@, asset is Some);
            r.start_byte == expect.0 && r.end_byte == expect.1 && r.index as int == expect.2
                && r.total == expect.3
        }),
{
    let rg = match range {
        Some(rg) => rg,
        None => {
            return ContentRange { start_byte: 0, end_byte: 0, index: 0, total: 0 };
        },
    };
    let a = match asset {
        Some(a) => a,
        None => {
            return ContentRange { start_byte: 0, end_byte: 0, index: 0, total: 0 };
        },
    };
    let ghost encs = a.encodings@;
    let sel: Option<usize> = range_sel_exec(&a.encodings, encodings);
    let sel_name: &str = match &sel {
        Some(i2) => encodings[*i2].as_str(),
        None => "",
    };
    proof {
        match sel {
            Some(i2) => {
                assert(sel_name@ == encodings@[i2 as int]@);
            },
            None => {
                assert(range_sel(encs, encodings@, 0) is None);
                assert(sel_name@ =~= ""@);
            },
        }
    }
    let ghost sname = (match range_sel(encs, encodings@, 0) {
        Some(i) => encodings@[i]@,
        None => ""@,
    });
    proof {
        assert(sel_name@ == sname);
    }
    let e = match a.encodings.get(sel_name) {
        Some(e) => e,
        None => {
            return ContentRange { start_byte: 0, end_byte: 0, index: 0, total: 0 };
        },
    };
    proof {
        assert(enc_layout_ok(encs[sel_name@]));
    }
    let m = e.content_chunks.len();
    let mut idx: usize = 0;
    while idx < m
        invariant
            idx <= m,
            m == e.content_chunks@.len(),
            enc_layout_ok(*e),
            encs == (match asset {
                Some(a2) => a2.encodings@,
                None => Map::<Seq<char>, AssetEncoding>::empty(),
            }),
            asset is Some,
            *range == Some(*rg),
            encs.contains_key(sname),
            *e == encs[sname],
            sname == (match range_sel(encs, encodings@, 0) {
                Some(i) => encodings@[i]@,
                None => ""@,
            }),
            rg.start_byte as nat >= prefix_len(e.content_chunks@, idx as int),
            find_chunk(e.content_chunks@, 0, rg.start_byte) == find_chunk(
                e.content_chunks@,
                idx as int,
                rg.start_byte,
            ),
        decreases m - idx,
    {
        let c = &e.content_chunks[idx];
        proof {
            assert(chunk_at_ok(e.content_chunks@, idx as int));
        }
        if rg.start_byte - c.start_byte < c.content.len() as u64 {
            proof {
                assert(find_chunk(e.content_chunks@, idx as int, rg.start_byte) == Some(
                    idx as int,
                ));
            }
            return ContentRange {
                start_byte: c.start_byte,
                end_byte: c.end_byte,
                index: idx,
                total: e.total_length,
            };
        }
        idx = idx + 1;
    }
    proof {
        assert(find_chunk(e.content_chunks@, 0, rg.start_byte) is None);
    }
    if m >= 1 {
        let first = &e.content_chunks[0];
        return ContentRange {
            start_byte: first.start_byte,
            end_byte: first.end_byte,
            index: 0,
            total: e.total_length,
        };
    }
    ContentRange { start_byte: 0, end_byte: 0, index: 0, total: 0 }
}


/// The encoding the direct branch serves: the first of the caller's names
/// present and certified, or present while identity is certified.
pub open spec fn serve_sel(
    encs: Map<Seq<char>, AssetEncoding>,
    names: Seq<String>,
    i: int,
) -> Option<int>
    decreases names.len() - i,
{
    range_sel(encs, names, i)
}

/// The encoding the fallback branch serves: the first of the caller's names
/// that is present and certified itself.
pub open spec fn cert_sel(
    encs: Map<Seq<char>, AssetEncoding>,
    names: Seq<String>,
    i: int,
) -> Option<int>
    decreases names.len() - i,
{
    if i < 0 || i >= names.len() {
        None
    } else if encs.contains_key(names[i]@) && encs[names[i]@].certified {
        Some(i)
    } else {
        cert_sel(encs, names, i + 1)
    }
}

fn cert_sel_exec(encs: &crate::table::Table<AssetEncoding>, names: &Vec<String>) -> (r: Option<
    usize,
>)
    requires
        encs.wf(),
    ensures
        (match r {
            Some(i) => i < names@.len() && cert_sel(encs@, names@, 0) == Some(i as int),
            None => cert_sel(encs@, names@, 0) is None,
        }),
{
    let mut i: usize = 0;
    let n = names.len();
    while i < n
        invariant
            i <= n,
            n == names@.len(),
            encs.wf(),
            cert_sel(encs@, names@, 0) == cert_sel(encs@, names@, i as int),
        decreases n - i,
    {
        match encs.get(names[i].as_str()) {
            Some(e) => {
                if e.certified {
                    proof {
                        assert(cert_sel(encs@, names@, i as int) == Some(i as int));
                    }
                    return Some(i);
                }
            },
            None => {},
        }
        i = i + 1;
    }
    None
}

/// A successful range selection names a present encoding, certified itself
/// or backed by a certified identity encoding.
pub proof fn lemma_range_sel(
    encs: Map<Seq<char>, AssetEncoding>,
    names: Seq<String>,
    i: int,
    sel: int,
)
    requires
        range_sel(encs, names, i) == Some(sel),
    ensures
        0 <= sel < names.len(),
        encs.contains_key(names[sel]@),
        encs[names[sel]@].certified || (encs.contains_key("identity"@)
            && encs["identity"@].certified),
    decreases names.len() - i,
{
    if i < 0 || i >= names.len() {
    } else if encs.contains_key(names[i]@) && (encs[names[i]@].certified || (encs.contains_key(
        "identity"@,
    ) && encs["identity"@].certified)) {
    } else {
        lemma_range_sel(encs, names, i + 1, sel);
    }
}

/// A successful certified selection names a present, certified encoding.
pub proof fn lemma_cert_sel(
    encs: Map<Seq<char>, AssetEncoding>,
    names: Seq<String>,
    i: int,
    sel: int,
)
    requires
        cert_sel(encs, names, i) == Some(sel),
    ensures
        0 <= sel < names.len(),
        encs.contains_key(names[sel]@),
        encs[names[sel]@].certified,
    decreases names.len() - i,
{
    if i < 0 || i >= names.len() {
    } else if encs.contains_key(names[i]@) && encs[names[i]@].certified {
    } else {
        lemma_cert_sel(encs, names, i + 1, sel);
    }
}

/// The merge of two witnesses fails only with a merge inconsistency.
pub proof fn lemma_merge_err(l: WitnessTree, r: WitnessTree)
    ensures
        (match spec_merge(l, r) {
            Ok(_) => true,
            Err(e) => e == Error::MergeInconsistentHashes || e == Error::MergeInconsistentLabels
                || e == Error::MergeInconsistentLeaves || e == Error::MergeInconsistentStructure,
        }),
    decreases l,
{
    match (l, r) {
        (WitnessTree::Fork(lp), WitnessTree::Fork(rp)) => {
            lemma_merge_err((*lp).0, (*rp).0);
            lemma_merge_err((*lp).1, (*rp).1);
        },
        (WitnessTree::Labeled(ll, ls), WitnessTree::Labeled(rl, rs)) => {
            lemma_merge_err(*ls, *rs);
        },
        _ => {},
    }
}

/// Whether the fallback path would answer for a missing path.
pub open spec fn spa_applies(st: State, path: Seq<char>) -> bool {
    !rb_view(st.asset_hashes).contains_key(path) && rb_view(st.asset_hashes).contains_key(
        index_file(),
    )
}

/// Whether the fallback branch can actually serve an accepted encoding.
pub open spec fn spa_serves(st: State, path: Seq<char>, names: Seq<String>) -> bool {
    spa_applies(st, path) && st.assets@.contains_key(index_file()) && (cert_sel(
        st.assets@[index_file()].encodings@,
        names,
        0,
    ) is Some)
}

/// Whether the direct branch can serve the requested path.
pub open spec fn direct_serves(st: State, path: Seq<char>, names: Seq<String>) -> bool {
    st.assets@.contains_key(path) && (serve_sel(st.assets@[path].encodings@, names, 0) is Some)
}

/// A range request against the fallback asset would land past the served
/// encoding's chunks.
pub open spec fn spa_oob(
    st: State,
    path: Seq<char>,
    names: Seq<String>,
    rng: Option<(u64, Option<u64>)>,
) -> bool {
    &&& spa_applies(st, path)
    &&& st.assets@.contains_key(index_file())
    &&& cert_sel(st.assets@[index_file()].encodings@, names, 0) is Some
    &&& rng is Some
    &&& ({
        let encs = st.assets@[index_file()].encodings@;
        let i = cert_sel(encs, names, 0).unwrap();
        content_range_spec(rng, encs, names, true).2 >= encs[names[i]@].content_chunks@.len()
    })
}

/// A range request against the requested asset would land past the served
/// encoding's chunks.
pub open spec fn direct_oob(
    st: State,
    path: Seq<char>,
    names: Seq<String>,
    rng: Option<(u64, Option<u64>)>,
) -> bool {
    &&& st.assets@.contains_key(path)
    &&& serve_sel(st.assets@[path].encodings@, names, 0) is Some
    &&& rng is Some
    &&& ({
        let encs = st.assets@[path].encodings@;
        let i = serve_sel(encs, names, 0).unwrap();
        let served = if encs[names[i]@].certified {
            encs[names[i]@]
        } else {
            encs["identity"@]
        };
        content_range_spec(rng, encs, names, true).2 >= served.content_chunks@.len()
    })
}

/// Everything a successful resolution promises for a state, a decoded path,
/// the accepted names, the requested range and the host certificate: which
/// status answers, the exact body served, the exact header list of every
/// branch, and when a continuation follows.
pub open spec fn response_ok(
    st: State,
    path: Seq<char>,
    names: Seq<String>,
    rng: Option<(u64, Option<u64>)>,
    certificate: Seq<u8>,
    resp: HttpResponse,
) -> bool {
    &&& (resp.status_code == 200 || resp.status_code == 206 || resp.status_code == 404)
    &&& (resp.status_code == 404 <==> (!spa_serves(st, path, names) && !direct_serves(
        st,
        path,
        names,
    )))
    &&& (resp.status_code == 206 ==> rng is Some)
    &&& (resp.status_code == 404 ==> resp.body@ == "not found".spec_bytes()
        && resp.streaming_strategy is None && ({
        let encs = (if st.assets@.contains_key(path) {
            st.assets@[path].encodings@
        } else {
            Map::<Seq<char>, AssetEncoding>::empty()
        });
        let idx = content_range_spec(rng, encs, names, st.assets@.contains_key(path)).2 as nat;
        headers_view(resp.headers@) == seq![
            (
                "IC-Certificate"@,
                cert_header_value(
                    certificate,
                    rb_witness_of(st.asset_hashes, path)@,
                    chunk_witness_text(st, path, idx),
                    idx,
                ),
            ),
        ]
    }))
    &&& (spa_serves(st, path, names) ==> ({
        let encs = st.assets@[index_file()].encodings@;
        let i = cert_sel(encs, names, 0).unwrap();
        let enc = encs[names[i]@];
        let merged = spec_merge(
            rb_witness_of(st.asset_hashes, path),
            rb_witness_of(st.asset_hashes, index_file()),
        );
        let cr = content_range_spec(rng, encs, names, true);
        let idx = (if rng is Some {
            cr.2
        } else {
            0int
        });
        let base = served_headers(
            st.assets@[index_file()].content_type@,
            names[i]@,
            cert_header_value(
                certificate,
                merged.unwrap()@,
                chunk_witness_text(st, index_file(), idx as nat),
                idx as nat,
            ),
        );
        &&& merged is Ok
        &&& resp.body@ == enc.content_chunks@[idx].content@
        &&& (match resp.streaming_strategy {
            Some(_) => idx + 1 < enc.content_chunks@.len(),
            None => idx + 1 >= enc.content_chunks@.len(),
        })
        &&& (if rng is Some {
            resp.status_code == 206 && idx < enc.content_chunks@.len() && headers_view(
                resp.headers@,
            ) == base + range_headers(cr.0, cr.1, cr.3)
        } else {
            resp.status_code == 200 && headers_view(resp.headers@) == base
        })
    }))
    &&& (!spa_serves(st, path, names) && direct_serves(st, path, names) ==> ({
        let encs = st.assets@[path].encodings@;
        let i = serve_sel(encs, names, 0).unwrap();
        let served = (if encs[names[i]@].certified {
            encs[names[i]@]
        } else {
            encs["identity"@]
        });
        let cr = content_range_spec(rng, encs, names, true);
        let idx = (if rng is Some {
            cr.2
        } else {
            0int
        });
        let base = served_headers(
            st.assets@[path].content_type@,
            names[i]@,
            cert_header_value(
                certificate,
                rb_witness_of(st.asset_hashes, path)@,
                chunk_witness_text(st, path, idx as nat),
                idx as nat,
            ),
        );
        &&& resp.body@ == served.content_chunks@[idx].content@
        &&& (match resp.streaming_strategy {
            Some(_) => idx + 1 < served.content_chunks@.len(),
            None => idx + 1 >= served.content_chunks@.len(),
        })
        &&& (if rng is Some {
            resp.status_code == 206 && idx < served.content_chunks@.len() && headers_view(
                resp.headers@,
            ) == base + range_headers(cr.0, cr.1, cr.3)
        } else {
            resp.status_code == 200 && headers_view(resp.headers@) == base
        })
    }))
}

/// Resolves a decoded path against the certified store: the fallback branch
/// first, then the direct one, and a certified absence answer last. The
/// caller supplies the host certificate and this canister's principal.
pub fn build_http_response(
    st: &State,
    path: &String,
    encodings: &Vec<String>,
    range: &Option<Range>,
    certificate: &Vec<u8>,
    self_principal: &Vec<u8>,
) -> (r: Result<HttpResponse, Error>)
    requires
        st.inv(),
    ensures
        (match r {
            Ok(resp) => response_ok(
                *st,
                path@,
                encodings@,
                range_view(*range),
                certificate@,
                resp,
            ),
            Err(e) => ({
                let rng = (match range {
                    Some(rg) => Some((rg.start_byte, rg.end_byte)),
                    None => None,
                });
                (spa_applies(*st, path@) && spec_merge(
                    rb_witness_of(st.asset_hashes, path@),
                    rb_witness_of(st.asset_hashes, index_file()),
                ) == Err::<WitnessTree, Error>(e)) || (e == Error::ChunkIndexOutOfBounds && (
                spa_oob(*st, path@, encodings@, rng) || direct_oob(*st, path@, encodings@, rng)))
            }),
        }),
        ({
            let rng = (match range {
                Some(rg) => Some((rg.start_byte, rg.end_byte)),
                None => None,
            });
            (!(spa_applies(*st, path@) && (spec_merge(
                rb_witness_of(st.asset_hashes, path@),
                rb_witness_of(st.asset_hashes, index_file()),
            ) is Err)) && !spa_oob(*st, path@, encodings@, rng) && !direct_oob(
                *st,
                path@,
                encodings@,
                rng,
            )) ==> r is Ok
        }),
{
    let index_key: String = "/index.html".to_owned();
    let ghost spa_served = spa_serves(*st, path@, encodings@);
    let index_asset = st.assets.get(index_key.as_str());
    let index_range = get_chunk_index_by_range(range, encodings, index_asset);
    let in_tree_path = crate::tree::rb_get(&st.asset_hashes, path.as_str());
    let in_tree_index = crate::tree::rb_get(&st.asset_hashes, index_key.as_str());
    if in_tree_path.is_none() && in_tree_index.is_some() {
        let chunk_tree = chunk_witness_or_empty(st, &index_key, index_range.index as u64);
        let absence = rb_witness(&st.asset_hashes, path.as_str());
        let presence = rb_witness(&st.asset_hashes, index_key.as_str());
        proof {
            lemma_merge_err(absence, presence);
        }
        let combined = match merge_hash_trees(absence, presence) {
            Ok(t) => t,
            Err(e) => {
                return Err(e);
            },
        };
        let header = witness_to_header(
            combined,
            &chunk_tree,
            index_range.index as u64,
            certificate,
        );
        match index_asset {
            Some(asset) => {
                let found = cert_sel_exec(&asset.encodings, encodings);
                match found {
                    Some(i) => {
                        let enc_name = &encodings[i];
                        proof {
                            lemma_cert_sel(asset.encodings@, encodings@, 0, i as int);
                        }
                        let enc = match asset.encodings.get(enc_name.as_str()) {
                            Some(e) => e,
                            None => vstd::pervasive::unreached(),
                        };
                        proof {
                            assert(enc_layout_ok(asset.encodings@[enc_name@]));
                        }
                        let ghost hval = header.1@;
                        proof {
                            assert(spa_served);
                            assert(hval == cert_header_value(
                                certificate@,
                                spec_merge(
                                    rb_witness_of(st.asset_hashes, path@),
                                    rb_witness_of(st.asset_hashes, index_file()),
                                ).unwrap()@,
                                chunk_witness_text(*st, index_file(), index_range.index as nat),
                                index_range.index as nat,
                            ));
                        }
                        match range {
                            Some(_) => {
                                if index_range.index >= enc.content_chunks.len() {
                                    return Err(Error::ChunkIndexOutOfBounds);
                                }
                                let resp = build_206(
                                    &asset.content_type,
                                    enc_name,
                                    enc,
                                    path,
                                    &index_range,
                                    Some(header),
                                    self_principal,
                                );
                                proof {
                                    assert(headers_view(resp.headers@) =~= served_headers(
                                        st.assets@[index_file()].content_type@,
                                        enc_name@,
                                        hval,
                                    ) + range_headers(
                                        index_range.start_byte,
                                        index_range.end_byte,
                                        index_range.total,
                                    ));
                                }
                                return Ok(resp);
                            },
                            None => {
                                proof {
                                    assert(index_range.index == 0);
                                }
                                let resp = build_200(
                                    &asset.content_type,
                                    enc_name,
                                    enc,
                                    &index_key,
                                    index_range.index,
                                    Some(header),
                                    self_principal,
                                );
                                proof {
                                    assert(headers_view(resp.headers@) =~= served_headers(
                                        st.assets@[index_file()].content_type@,
                                        enc_name@,
                                        hval,
                                    ));
                                }
                                return Ok(resp);
                            },
                        }
                    },
                    None => {},
                }
            },
            None => {},
        }
        proof {
            assert(!spa_served);
        }
    }
    proof {
        assert(!spa_served);
    }
    let direct_asset = st.assets.get(path.as_str());
    let content_range = get_chunk_index_by_range(range, encodings, direct_asset);
    let chunk_tree = chunk_witness_or_empty(st, path, content_range.index as u64);
    let witness = rb_witness(&st.asset_hashes, path.as_str());
    let header = witness_to_header(witness, &chunk_tree, content_range.index as u64, certificate);
    match direct_asset {
        Some(asset) => {
            let found = range_sel_exec(&asset.encodings, encodings);
            match found {
                Some(i) => {
                    let enc_name = &encodings[i];
                    proof {
                        lemma_range_sel(asset.encodings@, encodings@, 0, i as int);
                    }
                    let enc = match asset.encodings.get(enc_name.as_str()) {
                        Some(e) => e,
                        None => vstd::pervasive::unreached(),
                    };
                    proof {
                        assert(enc_layout_ok(asset.encodings@[enc_name@]));
                    }
                    let served: &AssetEncoding = if enc.certified {
                        enc
                    } else {
                        match asset.encodings.get("identity") {
                            Some(id_enc) => id_enc,
                            None => vstd::pervasive::unreached(),
                        }
                    };
                    proof {
                        if !enc.certified {
                            assert(enc_layout_ok(asset.encodings@["identity"@]));
                        }
                    }
                    let ghost hval = header.1@;
                    proof {
                        assert(direct_serves(*st, path@, encodings@));
                        assert(hval == cert_header_value(
                            certificate@,
                            rb_witness_of(st.asset_hashes, path@)@,
                            chunk_witness_text(*st, path@, content_range.index as nat),
                            content_range.index as nat,
                        ));
                    }
                    match range {
                        Some(_) => {
                            if content_range.index >= served.content_chunks.len() {
                                return Err(Error::ChunkIndexOutOfBounds);
                            }
                            let resp = build_206(
                                &asset.content_type,
                                enc_name,
                                served,
                                path,
                                &content_range,
                                Some(header),
                                self_principal,
                            );
                            proof {
                                assert(headers_view(resp.headers@) =~= served_headers(
                                    st.assets@[path@].content_type@,
                                    enc_name@,
                                    hval,
                                ) + range_headers(
                                    content_range.start_byte,
                                    content_range.end_byte,
                                    content_range.total,
                                ));
                            }
                            return Ok(resp);
                        },
                        None => {
                            proof {
                                assert(content_range.index == 0);
                            }
                            let resp = build_200(
                                &asset.content_type,
                                enc_name,
                                served,
                                path,
                                content_range.index,
                                Some(header),
                                self_principal,
                            );
                            proof {
                                assert(headers_view(resp.headers@) =~= served_headers(
                                    st.assets@[path@].content_type@,
                                    enc_name@,
                                    hval,
                                ));
                            }
                            return Ok(resp);
                        },
                    }
                },
                None => {},
            }
        },
        None => {},
    }
    Ok(build_404(header))
}


/// The encoding names the first `i` headers contribute: every
/// `Accept-Encoding` value split on commas, each part trimmed.
pub open spec fn accept_names_pre(headers: Seq<(String, String)>, i: int) -> Seq<Seq<char>>
    decreases i,
{
    if i <= 0 {
        Seq::<Seq<char>>::empty()
    } else {
        accept_names_pre(headers, i - 1) + (if eq_icase(headers[i - 1].0@, "Accept-Encoding"@) {
            crate::range::split_on(headers[i - 1].1@, ',').map_values(
                |p: Seq<char>| crate::range::trim_spec(p),
            )
        } else {
            Seq::<Seq<char>>::empty()
        })
    }
}

/// The full accepted-encoding list a request yields: the header parts in
/// order, then the implicit trailing `identity`.
pub open spec fn accept_names(headers: Seq<(String, String)>) -> Seq<Seq<char>> {
    accept_names_pre(headers, headers.len() as int).push("identity"@)
}

/// The value of the last `Range` header among the first `i`, or empty text.
pub open spec fn last_range_value(headers: Seq<(String, String)>, i: int) -> Seq<char>
    decreases i,
{
    if i <= 0 {
        Seq::<char>::empty()
    } else if eq_icase(headers[i - 1].0@, "Range"@) {
        headers[i - 1].1@
    } else {
        last_range_value(headers, i - 1)
    }
}

/// The single range a request carries: the first element of the last Range
/// header's parse, if the whole header parses.
pub open spec fn header_range(headers: Seq<(String, String)>) -> Option<(u64, Option<u64>)> {
    match crate::range::get_ranges_spec(last_range_value(headers, headers.len() as int)) {
        Some(rs) => Some(rs[0]),
        None => None,
    }
}

/// The texts of a name list, in order.
pub open spec fn names_view(names: Seq<String>) -> Seq<Seq<char>> {
    names.map_values(|s2: String| s2@)
}

/// Answers one HTTP request: headers are scanned for the accepted encodings
/// and an optional range, the path is decoded, and the store is consulted. A
/// malformed path yields a plain 400; resolution needs the host certificate
/// and hands every guarantee of the resolver up: what is served, when a 404
/// answers, and when an error can occur at all.
pub fn http_request(
    st: &State,
    req: &HttpRequest,
    certificate: &Option<Vec<u8>>,
    self_principal: &Vec<u8>,
) -> (r: Result<HttpResponse, Error>)
    requires
        st.inv(),
    ensures
        (match r {
            Ok(resp) => (match crate::url::url_decode_bytes(
                vstd::utf8::encode_utf8(path_of(req.url@)),
            ) {
                Some(p) => certificate is Some && (exists|names: Seq<String>|
                    #![trigger names_view(names)]
                    names_view(names) == accept_names(req.headers@) && response_ok(
                        *st,
                        p,
                        names,
                        header_range(req.headers@),
                        certificate.unwrap()@,
                        resp,
                    )),
                None => resp.status_code == 400 && resp.body@ == vstd::utf8::encode_utf8(
                    "failed to decode path '"@ + path_of(req.url@) + "': "@
                        + "invalid percent encoding"@,
                ) && resp.streaming_strategy is None && resp.headers@.len() == 0,
            }),
            Err(e) => (match crate::url::url_decode_bytes(
                vstd::utf8::encode_utf8(path_of(req.url@)),
            ) {
                Some(p) => (e == Error::NoDataCertificate && certificate is None) || (certificate
                    is Some && (exists|names: Seq<String>|
                    #![trigger names_view(names)]
                    names_view(names) == accept_names(req.headers@) && ({
                        let rng = header_range(req.headers@);
                        (spa_applies(*st, p) && spec_merge(
                            rb_witness_of(st.asset_hashes, p),
                            rb_witness_of(st.asset_hashes, index_file()),
                        ) == Err::<WitnessTree, Error>(e)) || (e == Error::ChunkIndexOutOfBounds
                            && (spa_oob(*st, p, names, rng) || direct_oob(*st, p, names, rng)))
                    }))),
                None => false,
            }),
        }),
{
    let mut encodings: Vec<String> = Vec::new();
    let mut range_header_value: String = String::new();
    let mut i: usize = 0;
    let nh = req.headers.len();
    proof {
        assert(encodings@.map_values(|s2: String| s2@) =~= accept_names_pre(req.headers@, 0));
    }
    while i < nh
        invariant
            i <= nh,
            nh == req.headers@.len(),
            encodings@.map_values(|s2: String| s2@) == accept_names_pre(req.headers@, i as int),
            range_header_value@ == last_range_value(req.headers@, i as int),
        decreases nh - i,
    {
        let name = &req.headers[i].0;
        let value = &req.headers[i].1;
        let ghost before = encodings@;
        if str_eq_icase(name.as_str(), "Accept-Encoding") {
            let vchars = chars_vec(value.as_str());
            let parts = crate::range::split_chars_from(&vchars, 0, ',');
            proof {
                assert(vchars@.skip(0) =~= vchars@);
            }
            let ghost added_names = crate::range::split_on(value@, ',').map_values(
                |p: Seq<char>| crate::range::trim_spec(p),
            );
            let mut j: usize = 0;
            let np = parts.len();
            proof {
                assert(before.map_values(|s2: String| s2@) + added_names.take(0) =~= before.map_values(
                    |s2: String| s2@,
                ));
            }
            while j < np
                invariant
                    j <= np,
                    np == parts@.len(),
                    added_names == crate::range::split_on(value@, ',').map_values(
                        |p: Seq<char>| crate::range::trim_spec(p),
                    ),
                    parts@.map_values(|x: Vec<char>| x@) == crate::range::split_on(value@, ','),
                    encodings@.map_values(|s2: String| s2@) == before.map_values(
                        |s2: String| s2@,
                    ) + added_names.take(j as int),
                decreases np - j,
            {
                let trimmed = crate::range::trim_chars(&parts[j]);
                let ghost prevmap = encodings@.map_values(|s2: String| s2@);
                encodings.push(chars_to_string(&trimmed));
                proof {
                    assert(parts@.map_values(|x: Vec<char>| x@)[j as int] == parts@[j as int]@);
                    assert(trimmed@ == added_names[j as int]);
                    assert(encodings@.map_values(|s2: String| s2@) =~= prevmap.push(
                        trimmed@,
                    ));
                    assert(added_names.take(j + 1) =~= added_names.take(j as int).push(added_names[j as int]));
                    assert(encodings@.map_values(|s2: String| s2@) =~= before.map_values(
                        |s2: String| s2@,
                    ) + added_names.take(j + 1));
                }
                j = j + 1;
            }
            proof {
                assert(added_names.take(np as int) =~= added_names);
            }
        }
        if str_eq_icase(name.as_str(), "Range") {
            range_header_value = value.clone();
        }
        proof {
            assert(req.headers@[i as int].0@ == name@ && req.headers@[i as int].1@ == value@);
            if eq_icase(name@, "Accept-Encoding"@) {
                assert(encodings@.map_values(|s2: String| s2@) =~= accept_names_pre(
                    req.headers@,
                    i + 1,
                ));
            } else {
                assert(encodings@ == before);
                assert(accept_names_pre(req.headers@, i + 1) =~= accept_names_pre(
                    req.headers@,
                    i as int,
                ) + Seq::<Seq<char>>::empty());
            }
        }
        i = i + 1;
    }
    let ghost rhv = range_header_value@;
    let range: Option<Range> = match crate::range::get_ranges(range_header_value.as_str()) {
        Some(rs) => Some(Range { start_byte: rs[0].start_byte, end_byte: rs[0].end_byte }),
        None => None,
    };
    proof {
        assert(rhv == last_range_value(req.headers@, req.headers@.len() as int));
        match &range {
            Some(rg) => {
                assert(header_range(req.headers@) == Some((rg.start_byte, rg.end_byte)));
            },
            None => {
                assert(header_range(req.headers@) is None);
            },
        }
    }
    let ghost premap = encodings@.map_values(|s2: String| s2@);
    encodings.push("identity".to_owned());
    proof {
        assert(encodings@.map_values(|s2: String| s2@) =~= premap.push("identity"@));
        assert(encodings@.map_values(|s2: String| s2@) == accept_names(req.headers@));
    }
    let path = strip_query(req.url.as_str());
    match crate::url::url_decode(path.as_str()) {
        Ok(decoded) => {
            let cert = match certificate {
                Some(c) => c,
                None => {
                    return Err(Error::NoDataCertificate);
                },
            };
            let out = build_http_response(st, &decoded, &encodings, &range, cert, self_principal);
            proof {
                assert(names_view(encodings@) == accept_names(req.headers@));
            }
            out
        },
        Err(err) => {
            let mut msg = String::new();
            msg.append("failed to decode path '");
            msg.append(path.as_str());
            msg.append("': ");
            msg.append(err.message().as_str());
            let body: Vec<u8> = msg.as_str().as_bytes_vec();
            Ok(
                HttpResponse {
                    status_code: 400,
                    headers: Vec::new(),
                    body: RcBytes::from_vec(body),
                    streaming_strategy: None,
                },
            )
        },
    }
}

/// Serves the next chunk named by a continuation token, together with that
/// chunk's witness; a digest carried by the token must still match.
pub fn http_request_streaming_callback(st: &State, token: &StreamingCallbackToken) -> (r: Result<
    StreamingCallbackHttpResponse,
    Error,
>)
    requires
        st.inv(),
    ensures
        (match r {
            Ok(resp) => st.assets@.contains_key(token.key@)
                && st.assets@[token.key@].encodings@.contains_key(token.content_encoding@)
                && st.chunk_hashes@.contains_key(token.key@) && ({
                let e = st.assets@[token.key@].encodings@[token.content_encoding@];
                &&& (match token.sha256 {
                    Some(s) => s@ == e.sha256@,
                    None => true,
                })
                &&& token.index < e.content_chunks@.len()
                &&& resp.body@ == e.content_chunks@[token.index as int].content@
                &&& (match resp.token {
                    Some(t) => token.index + 1 < e.content_chunks@.len() && t.index == token.index
                        + 1 && t.key@ == token.key@ && t.content_encoding@
                        == token.content_encoding@ && (match t.sha256 {
                        Some(s2) => s2@ == e.sha256@,
                        None => false,
                    }),
                    None => token.index + 1 >= e.content_chunks@.len(),
                })
                &&& resp.chunk_tree@ == (if rb_view(st.chunk_hashes@[token.key@]).contains_key(
                    dec_str(token.index as nat),
                ) {
                    b64_of(
                        cbor_of(
                            rb_witness_of(
                                st.chunk_hashes@[token.key@],
                                dec_str(token.index as nat),
                            )@,
                        ),
                    )
                } else {
                    Seq::<char>::empty()
                })
            }),
            Err(e) => (e == Error::InvalidTokenKey && !st.assets@.contains_key(token.key@)) || (e
                == Error::InvalidTokenEncoding && st.assets@.contains_key(token.key@)
                && !st.assets@[token.key@].encodings@.contains_key(token.content_encoding@)) || ({
                let enc = st.assets@[token.key@].encodings@[token.content_encoding@];
                let sha_ok = (match token.sha256 {
                    Some(s) => s@ == enc.sha256@,
                    None => true,
                });
                let present = st.assets@.contains_key(token.key@)
                    && st.assets@[token.key@].encodings@.contains_key(token.content_encoding@);
                (e == Error::Sha256Mismatch && present && !sha_ok) || (e
                    == Error::ChunkIndexOutOfBounds && present && sha_ok && token.index
                    >= enc.content_chunks@.len()) || (e == Error::AssetNotFoundInChunksMap
                    && present && sha_ok && token.index < enc.content_chunks@.len()
                    && !st.chunk_hashes@.contains_key(token.key@))
            }),
        }),
{
    let asset = match st.assets.get(token.key.as_str()) {
        Some(a) => a,
        None => {
            return Err(Error::InvalidTokenKey);
        },
    };
    let enc = match asset.encodings.get(token.content_encoding.as_str()) {
        Some(e) => e,
        None => {
            return Err(Error::InvalidTokenEncoding);
        },
    };
    match &token.sha256 {
        Some(s) => {
            if !crate::table::bytes_eq(s.as_slice(), enc.sha256.as_slice()) {
                return Err(Error::Sha256Mismatch);
            }
        },
        None => {},
    }
    let n = enc.content_chunks.len();
    if token.index >= n as u64 {
        return Err(Error::ChunkIndexOutOfBounds);
    }
    let chunk_index: usize = token.index as usize;
    let chunk_tree = match get_serialized_chunk_witness(st, &token.key, token.index) {
        Ok(t) => t,
        Err(e) => {
            return Err(e);
        },
    };
    let next = create_token(&token.content_encoding, enc, &token.key, chunk_index);
    Ok(
        StreamingCallbackHttpResponse {
            body: enc.content_chunks[chunk_index].content.clone_ref(),
            token: next,
            chunk_tree,
        },
    )
}

} // verus!
