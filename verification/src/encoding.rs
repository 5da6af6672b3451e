//! Detecting, decoding and encoding the text encoding of a `.resx` file.
//!
//! An encoding is held as an encoding label that encoding_rs recognises
//! (`"utf-8"`, `"utf-16le"`, `"utf-16be"`, `"windows-1252"`, or the label that
//! the file's XML declaration names).

use vstd::prelude::*;
use vstd::utf8::valid_utf8;
use crate::error::{concat_str, AppError, AppErrorView};
use crate::text::{
    ci_at, ci_match, first_char_from, find_char, is_white_space, lemma_first_char_from_bounds,
    lemma_skip_ws_bounds, skip_white_space, skip_ws, slice_to_vec, white_space,
};

verus! {

/// Whether encoding_rs's `Encoding::for_label` recognises `label`.
pub uninterp spec fn known_label(label: Seq<char>) -> bool;

/// What encoding_rs's `decode_without_bom_handling` gives for `bytes` with
/// the encoding that `label` names: the text and whether there were
/// malformed sequences (`None` when the label is unknown).
pub uninterp spec fn decode_outcome(label: Seq<char>, bytes: Seq<u8>) -> Option<(Seq<char>, bool)>;

/// What encoding_rs's `encode` gives for `text` with the encoding that
/// `label` names: the bytes and whether some character was unmappable
/// (`None` when the label is unknown).
pub uninterp spec fn encode_outcome(label: Seq<char>, text: Seq<char>) -> Option<(Seq<u8>, bool)>;

/// What std's `String::from_utf8_lossy` gives for `bytes`.
pub uninterp spec fn lossy_utf8(bytes: Seq<u8>) -> Seq<char>;

/// The name that encoding_rs gives the encoding that `label` names
/// (`None` when the label is unknown).
pub uninterp spec fn canonical_name(label: Seq<char>) -> Option<Seq<char>>;

/// encoding_rs's `Encoding::for_label` followed by `Encoding::name`: the
/// name of the encoding that `label` names. The contract names the answer
/// and gives the two that the library relies on: `utf-16le` names
/// `UTF-16LE` and `utf-16be` names `UTF-16BE`.
#[verifier::external_body]
fn encoding_name(label: &str) -> (res: Option<String>)
    ensures
        match res {
            Some(n) => canonical_name(label@) == Some(n@),
            None => canonical_name(label@) is None,
        },
        label@ == "utf-16le"@ ==> res is Some && res->0@ == "UTF-16LE"@,
        label@ == "utf-16be"@ ==> res is Some && res->0@ == "UTF-16BE"@,
{
    encoding_rs::Encoding::for_label(label.as_bytes()).map(|e| e.name().to_owned())
}

/// encoding_rs's `Encoding::for_label`: whether `label` names an encoding.
/// The contract only names the answer.
#[verifier::external_body]
fn label_is_known(label: &str) -> (res: bool)
    ensures
        res == known_label(label@),
{
    encoding_rs::Encoding::for_label(label.as_bytes()).is_some()
}

/// encoding_rs's `Encoding::decode_without_bom_handling`, with the encoding
/// looked up by `Encoding::for_label`. The contract names the result, and
/// says that it is there exactly for labels that the lookup recognises.
#[verifier::external_body]
pub fn decode_with_label(label: &str, bytes: &[u8]) -> (res: Option<(String, bool)>)
    ensures
        res is Some <==> known_label(label@),
        match res {
            Some((t, errors)) => decode_outcome(label@, bytes@) == Some((t@, errors)),
            None => decode_outcome(label@, bytes@) is None,
        },
{
    match encoding_rs::Encoding::for_label(label.as_bytes()) {
        Some(enc) => {
            let (text, errors) = enc.decode_without_bom_handling(bytes);
            Some((text.into_owned(), errors))
        },
        None => None,
    }
}

/// encoding_rs's `Encoding::encode`, with the encoding looked up by
/// `Encoding::for_label`. The contract names the result, and says that it
/// is there exactly for labels that the lookup recognises.
#[verifier::external_body]
pub fn encode_with_label(label: &str, text: &str) -> (res: Option<(Vec<u8>, bool)>)
    ensures
        res is Some <==> known_label(label@),
        match res {
            Some((b, errors)) => encode_outcome(label@, text@) == Some((b@, errors)),
            None => encode_outcome(label@, text@) is None,
        },
{
    match encoding_rs::Encoding::for_label(label.as_bytes()) {
        Some(enc) => {
            let (bytes, _, errors) = enc.encode(text);
            Some((bytes.into_owned(), errors))
        },
        None => None,
    }
}

/// std's `str::from_utf8(..).is_ok()`: whether `bytes` are well-formed UTF-8.
#[verifier::external_body]
fn utf8_is_valid(bytes: &[u8]) -> (res: bool)
    ensures
        res == valid_utf8(bytes@),
{
    std::str::from_utf8(bytes).is_ok()
}

/// std's `String::from_utf8_lossy`: `bytes` as text, with malformed
/// sequences replaced. Well-formed UTF-8 is decoded as it is.
#[verifier::external_body]
fn utf8_lossy(bytes: &[u8]) -> (res: String)
    ensures
        res@ == lossy_utf8(bytes@),
        valid_utf8(bytes@) ==> res@ == vstd::utf8::decode_utf8(bytes@),
{
    String::from_utf8_lossy(bytes).into_owned()
}

/// The encoding of a file: the encoding label, a name for people, the byte
/// order mark that the file starts with (empty when none) and what the
/// encoding was detected from.
#[derive(Debug, Clone)]
pub struct FileEncoding {
    pub encoding: String,
    pub name: String,
    pub bom: Vec<u8>,
    pub source: String,
}

/// The mathematical model of a [`FileEncoding`].
pub struct FileEncodingView {
    pub encoding: Seq<char>,
    pub name: Seq<char>,
    pub bom: Seq<u8>,
    pub source: Seq<char>,
}

impl View for FileEncoding {
    type V = FileEncodingView;

    open spec fn view(&self) -> FileEncodingView {
        FileEncodingView {
            encoding: self.encoding@,
            name: self.name@,
            bom: self.bom@,
            source: self.source@,
        }
    }
}

pub open spec fn bytes_start_with(b: Seq<u8>, p: Seq<u8>) -> bool {
    p.len() <= b.len() && b.subrange(0, p.len() as int) == p
}

pub fn starts_with_bytes(b: &[u8], p: &[u8]) -> (res: bool)
    ensures
        res == bytes_start_with(b@, p@),
{
    if p.len() > b.len() {
        return false;
    }
    let mut i: usize = 0;
    while i < p.len()
        invariant
            p@.len() <= b@.len(),
            i <= p@.len(),
            forall|k: int| 0 <= k < i ==> b@[k] == p@[k],
        decreases p@.len() - i,
    {
        if b[i] != p[i] {
            assert(b@.subrange(0, p@.len() as int)[i as int] != p@[i as int]);
            return false;
        }
        i += 1;
    }
    assert(b@.subrange(0, p@.len() as int) =~= p@);
    true
}

// ---------------------------------------------------------------------
// The XML declaration's encoding: `<?xml` (any case), white space, then,
// before the first `>`, `encoding` (any case) `=` and a quoted label. Of the
// candidates inside one declaration the last one counts; of several
// declarations the first one that has a candidate.

/// A character that opens or closes the quoted label.
pub open spec fn is_quote(c: char) -> bool {
    c == '"' || c == '\''
}

/// The first quote character at or after `from`.
pub open spec fn first_quote_from(s: Seq<char>, from: int) -> Option<int>
    decreases s.len() - from,
{
    if from < 0 || from >= s.len() {
        None
    } else if is_quote(s[from]) {
        Some(from)
    } else {
        first_quote_from(s, from + 1)
    }
}

/// `encoding = "label"` at `q`: the range of the label.
pub open spec fn encoding_assign_at(s: Seq<char>, q: int) -> Option<(int, int)> {
    if ci_at(s, q, "encoding"@) {
        let a = skip_ws(s, q + 8);
        if a < s.len() && s[a] == '=' {
            let b = skip_ws(s, a + 1);
            if b < s.len() && is_quote(s[b]) {
                match first_quote_from(s, b + 1) {
                    Some(k) => if k > b + 1 {
                        Some((b + 1, k))
                    } else {
                        None
                    },
                    None => None,
                }
            } else {
                None
            }
        } else {
            None
        }
    } else {
        None
    }
}

/// The last position in `[lo, hi)` holding an encoding assignment.
pub open spec fn last_assign(s: Seq<char>, lo: int, hi: int) -> Option<(int, int)>
    decreases hi - lo,
{
    if hi <= lo {
        None
    } else {
        match encoding_assign_at(s, hi - 1) {
            Some(r) => Some(r),
            None => last_assign(s, lo, hi - 1),
        }
    }
}

/// The declaration that starts at `p`, and the label range it yields.
pub open spec fn declaration_at(s: Seq<char>, p: int) -> Option<(int, int)> {
    if ci_at(s, p, "<?xml"@) && p + 5 < s.len() && is_white_space(s[p + 5]) {
        let limit = match first_char_from(s, p + 5, '>') {
            Some(g) => g,
            None => s.len() as int,
        };
        last_assign(s, p + 6, limit)
    } else {
        None
    }
}

/// The label range of the first declaration at or after `p`.
pub open spec fn declaration_from(s: Seq<char>, p: int) -> Option<(int, int)>
    decreases s.len() - p,
{
    if p < 0 || p >= s.len() {
        None
    } else {
        match declaration_at(s, p) {
            Some(r) => Some(r),
            None => declaration_from(s, p + 1),
        }
    }
}

/// The encoding label that an XML declaration in `s` names.
pub open spec fn declared_label(s: Seq<char>) -> Option<Seq<char>> {
    match declaration_from(s, 0) {
        Some((a, b)) => Some(s.subrange(a, b)),
        None => None,
    }
}

/// How many leading bytes are searched for the declaration.
pub open spec fn declaration_window(bytes: Seq<u8>) -> Seq<u8> {
    if bytes.len() <= 512 {
        bytes
    } else {
        bytes.subrange(0, 512)
    }
}

/// The text that the declaration is looked for in: the window read as
/// UTF-8, with malformed sequences replaced when it is not well-formed.
pub open spec fn window_text(bytes: Seq<u8>) -> Seq<char> {
    let w = declaration_window(bytes);
    if valid_utf8(w) {
        vstd::utf8::decode_utf8(w)
    } else {
        lossy_utf8(w)
    }
}

fn find_quote(s: &[char], from: usize) -> (res: Option<usize>)
    ensures
        match res {
            Some(k) => first_quote_from(s@, from as int) == Some(k as int),
            None => first_quote_from(s@, from as int) is None,
        },
{
    let mut i = from;
    while i < s.len()
        invariant
            from <= i,
            first_quote_from(s@, from as int) == first_quote_from(s@, i as int),
        decreases s@.len() - i,
    {
        if s[i] == '"' || s[i] == '\'' {
            return Some(i);
        }
        i += 1;
    }
    None
}

proof fn lemma_first_quote_bounds(s: Seq<char>, from: int)
    ensures
        first_quote_from(s, from) matches Some(k) ==> from <= k < s.len(),
    decreases s.len() - from,
{
    if 0 <= from < s.len() && !is_quote(s[from]) {
        lemma_first_quote_bounds(s, from + 1);
    }
}

fn assign_at(s: &[char], q: usize) -> (res: Option<(usize, usize)>)
    ensures
        match res {
            Some((a, b)) => encoding_assign_at(s@, q as int) == Some((a as int, b as int)) && a
                <= b <= s@.len(),
            None => encoding_assign_at(s@, q as int) is None,
        },
{
    let lit: [char; 8] = ['e', 'n', 'c', 'o', 'd', 'i', 'n', 'g'];
    proof {
        reveal_strlit("encoding");
        assert(lit@ =~= "encoding"@);
    }
    if !ci_match(s, q, &lit) {
        return None;
    }
    assert(q + 8 <= s@.len());
    assert(s@.len() == s.len());
    let a = skip_white_space(s, q + 8);
    if a >= s.len() || s[a] != '=' {
        return None;
    }
    let b = skip_white_space(s, a + 1);
    if b >= s.len() || !(s[b] == '"' || s[b] == '\'') {
        return None;
    }
    match find_quote(s, b + 1) {
        Some(k) => {
            proof {
                lemma_first_quote_bounds(s@, b + 1);
            }
            if k > b + 1 {
                Some((b + 1, k))
            } else {
                None
            }
        },
        None => None,
    }
}

fn declaration_at_exec(s: &[char], p: usize) -> (res: Option<(usize, usize)>)
    ensures
        match res {
            Some((a, b)) => declaration_at(s@, p as int) == Some((a as int, b as int)) && a <= b
                <= s@.len(),
            None => declaration_at(s@, p as int) is None,
        },
{
    let lit: [char; 5] = ['<', '?', 'x', 'm', 'l'];
    proof {
        reveal_strlit("<?xml");
        assert(lit@ =~= "<?xml"@);
    }
    if !ci_match(s, p, &lit) {
        return None;
    }
    assert(p + 5 <= s@.len());
    assert(s@.len() == s.len());
    if p + 5 >= s.len() || !white_space(s[p + 5]) {
        return None;
    }
    let limit = match find_char(s, p + 5, '>') {
        Some(g) => g,
        None => s.len(),
    };
    proof {
        lemma_first_char_from_bounds(s@, p + 5, '>');
    }
    let mut hi = limit;
    assert(declaration_at(s@, p as int) == last_assign(s@, p + 6, limit as int));
    while hi > p + 6
        invariant
            p + 6 <= s@.len(),
            s@.len() == s.len(),
            declaration_at(s@, p as int) == last_assign(s@, p + 6, limit as int),
            hi <= s@.len(),
            last_assign(s@, p + 6, limit as int) == last_assign(s@, p + 6, hi as int),
        decreases hi,
    {
        match assign_at(s, hi - 1) {
            Some(r) => {
                return Some(r);
            },
            None => {},
        }
        hi -= 1;
    }
    None
}

/// The encoding label named by an XML declaration near the start of `bytes`
/// (the first 512 bytes, read as UTF-8 with malformed sequences replaced).
pub fn xml_declared_encoding(bytes: &[u8]) -> (res: Option<String>)
    ensures
        match res {
            Some(l) => declared_label(window_text(bytes@)) == Some(l@),
            None => declared_label(window_text(bytes@)) is None,
        },
{
    let prefix_len = if bytes.len() < 512 {
        bytes.len()
    } else {
        512
    };
    let window = &bytes[0..prefix_len];
    assert(window@ =~= declaration_window(bytes@));
    let text = utf8_lossy(window);
    let s = crate::text::chars_of(text.as_str());
    let mut p: usize = 0;
    while p < s.len()
        invariant
            s@ == window_text(bytes@),
            declaration_from(s@, 0) == declaration_from(s@, p as int),
        decreases s@.len() - p,
    {
        match declaration_at_exec(&s, p) {
            Some((a, b)) => {
                let label = slice_to_vec(&s, a, b);
                return Some(crate::text::string_from_chars(&label));
            },
            None => {},
        }
        p += 1;
    }
    None
}

// ---------------------------------------------------------------------
// Detection.

pub open spec fn utf8_bom() -> Seq<u8> {
    seq![0xEFu8, 0xBBu8, 0xBFu8]
}

pub open spec fn utf16le_bom() -> Seq<u8> {
    seq![0xFFu8, 0xFEu8]
}

pub open spec fn utf16be_bom() -> Seq<u8> {
    seq![0xFEu8, 0xFFu8]
}

pub open spec fn file_encoding(
    encoding: Seq<char>,
    name: Seq<char>,
    bom: Seq<u8>,
    source: Seq<char>,
) -> FileEncodingView {
    FileEncodingView { encoding, name, bom, source }
}

/// The encoding detected for a file's bytes: a byte order mark decides
/// first (UTF-32 marks are refused), then an XML declaration whose label
/// encoding_rs recognises, then strict UTF-8 validity, and Windows-1252
/// otherwise.
pub open spec fn detected_encoding(bytes: Seq<u8>) -> Result<FileEncodingView, AppErrorView> {
    if bytes_start_with(bytes, utf8_bom()) {
        Ok(file_encoding("utf-8"@, "UTF-8 with BOM"@, utf8_bom(), "BOM"@))
    } else if bytes_start_with(bytes, seq![0xFFu8, 0xFEu8, 0x00u8, 0x00u8]) || bytes_start_with(
        bytes,
        seq![0x00u8, 0x00u8, 0xFEu8, 0xFFu8],
    ) {
        Err(AppErrorView::UnsupportedEncoding("UTF-32 is not supported"@))
    } else if bytes_start_with(bytes, utf16le_bom()) {
        Ok(file_encoding("utf-16le"@, "UTF-16 LE with BOM"@, utf16le_bom(), "BOM"@))
    } else if bytes_start_with(bytes, utf16be_bom()) {
        Ok(file_encoding("utf-16be"@, "UTF-16 BE with BOM"@, utf16be_bom(), "BOM"@))
    } else {
        match declared_label(window_text(bytes)) {
            Some(label) if known_label(label) => Ok(
                file_encoding(label, label + " without BOM"@, Seq::empty(), "XML declaration"@),
            ),
            _ => if valid_utf8(bytes) {
                Ok(
                    file_encoding(
                        "utf-8"@,
                        "UTF-8 without BOM"@,
                        Seq::empty(),
                        "UTF-8 strict validation"@,
                    ),
                )
            } else {
                Ok(file_encoding("windows-1252"@, "Windows-1252"@, Seq::empty(), "fallback"@))
            },
        }
    }
}

fn make_encoding(encoding: &str, name: &str, bom: &[u8], source: &str) -> (res: FileEncoding)
    ensures
        res@ == file_encoding(encoding@, name@, bom@, source@),
{
    let mut b: Vec<u8> = Vec::new();
    b.extend_from_slice(bom);
    assert(b@ =~= bom@);
    FileEncoding { encoding: encoding.to_owned(), name: name.to_owned(), bom: b, source: source.to_owned() }
}

/// Detects the encoding of a file from its bytes.
pub fn detect_encoding(bytes: &[u8]) -> (res: Result<FileEncoding, AppError>)
    ensures
        match res {
            Ok(e) => detected_encoding(bytes@) == Ok::<FileEncodingView, AppErrorView>(e@),
            Err(e) => detected_encoding(bytes@) == Err::<FileEncodingView, AppErrorView>(e@),
        },
{
    let utf8_mark: [u8; 3] = [0xEF, 0xBB, 0xBF];
    let le_mark: [u8; 2] = [0xFF, 0xFE];
    let be_mark: [u8; 2] = [0xFE, 0xFF];
    let le32_mark: [u8; 4] = [0xFF, 0xFE, 0x00, 0x00];
    let be32_mark: [u8; 4] = [0x00, 0x00, 0xFE, 0xFF];
    assert(utf8_mark@ == utf8_bom());
    assert(le_mark@ == utf16le_bom());
    assert(be_mark@ == utf16be_bom());
    assert(le32_mark@ == seq![0xFFu8, 0xFEu8, 0x00u8, 0x00u8]);
    assert(be32_mark@ == seq![0x00u8, 0x00u8, 0xFEu8, 0xFFu8]);
    if starts_with_bytes(bytes, &utf8_mark) {
        return Ok(make_encoding("utf-8", "UTF-8 with BOM", &utf8_mark, "BOM"));
    }
    if starts_with_bytes(bytes, &le32_mark) || starts_with_bytes(bytes, &be32_mark) {
        return Err(AppError::UnsupportedEncoding("UTF-32 is not supported".to_owned()));
    }
    if starts_with_bytes(bytes, &le_mark) {
        return Ok(make_encoding("utf-16le", "UTF-16 LE with BOM", &le_mark, "BOM"));
    }
    if starts_with_bytes(bytes, &be_mark) {
        return Ok(make_encoding("utf-16be", "UTF-16 BE with BOM", &be_mark, "BOM"));
    }
    match xml_declared_encoding(bytes) {
        Some(label) => {
            if label_is_known(label.as_str()) {
                let name = concat_str(label.as_str(), " without BOM");
                return Ok(
                    FileEncoding {
                        encoding: label,
                        name,
                        bom: Vec::new(),
                        source: "XML declaration".to_owned(),
                    },
                );
            }
        },
        None => {},
    }
    let no_mark: [u8; 0] = [];
    assert(no_mark@ =~= Seq::<u8>::empty());
    if utf8_is_valid(bytes) {
        Ok(make_encoding("utf-8", "UTF-8 without BOM", &no_mark, "UTF-8 strict validation"))
    } else {
        Ok(make_encoding("windows-1252", "Windows-1252", &no_mark, "fallback"))
    }
}

/// The outcome of decoding `bytes` with `enc`: a byte order mark that
/// starts the bytes is left out, then the rest is decoded.
pub open spec fn decoded_file(bytes: Seq<u8>, enc: FileEncodingView) -> Result<Seq<char>, AppErrorView> {
    let body = if enc.bom.len() > 0 && bytes_start_with(bytes, enc.bom) {
        bytes.subrange(enc.bom.len() as int, bytes.len() as int)
    } else {
        bytes
    };
    match decode_outcome(enc.encoding, body) {
        Some((text, false)) => Ok(text),
        Some((_, true)) => Err(AppErrorView::Message("decoding errors using "@ + enc.name)),
        None => Err(AppErrorView::UnsupportedEncoding(enc.encoding)),
    }
}

/// Decodes a file's bytes with its encoding.
pub fn decode_file(bytes: &[u8], enc: &FileEncoding) -> (res: Result<String, AppError>)
    ensures
        match res {
            Ok(t) => decoded_file(bytes@, enc@) == Ok::<Seq<char>, AppErrorView>(t@),
            Err(e) => decoded_file(bytes@, enc@) == Err::<Seq<char>, AppErrorView>(e@),
        },
{
    let body: &[u8] = if enc.bom.len() > 0 && starts_with_bytes(bytes, enc.bom.as_slice()) {
        &bytes[enc.bom.len()..bytes.len()]
    } else {
        bytes
    };
    match decode_with_label(enc.encoding.as_str(), body) {
        Some((text, errors)) => {
            if errors {
                Err(AppError::Message(concat_str("decoding errors using ", enc.name.as_str())))
            } else {
                Ok(text)
            }
        },
        None => Err(AppError::UnsupportedEncoding(enc.encoding.clone())),
    }
}

/// The UTF-16 code units of `c`: one below U+10000, a surrogate pair
/// above.
pub open spec fn utf16_units(c: char) -> Seq<int> {
    let v = (c as u32) as int;
    if v < 0x10000 {
        seq![v]
    } else {
        seq![0xD800 + (v - 0x10000) / 0x400, 0xDC00 + (v - 0x10000) % 0x400]
    }
}

/// The two bytes of a UTF-16 code unit, in the given byte order.
pub open spec fn unit_bytes(u: int, big_endian: bool) -> Seq<u8> {
    if big_endian {
        seq![(u / 256) as u8, (u % 256) as u8]
    } else {
        seq![(u % 256) as u8, (u / 256) as u8]
    }
}

/// The UTF-16 bytes of `c`, in the given byte order.
pub open spec fn char_utf16(c: char, big_endian: bool) -> Seq<u8> {
    let u = utf16_units(c);
    if u.len() == 1 {
        unit_bytes(u[0], big_endian)
    } else {
        unit_bytes(u[0], big_endian) + unit_bytes(u[1], big_endian)
    }
}

/// `text` as UTF-16 bytes, in the given byte order.
pub open spec fn utf16_bytes(text: Seq<char>, big_endian: bool) -> Seq<u8>
    decreases text.len(),
{
    if text.len() == 0 {
        Seq::empty()
    } else {
        char_utf16(text[0], big_endian) + utf16_bytes(text.skip(1), big_endian)
    }
}

/// The outcome of encoding `text` with an encoding that is not UTF-16,
/// through encoding_rs.
pub open spec fn encoded_other(text: Seq<char>, enc: FileEncodingView) -> Result<Seq<u8>, AppErrorView> {
    match encode_outcome(enc.encoding, text) {
        Some((bytes, false)) => Ok(enc.bom + bytes),
        Some((_, true)) => Err(AppErrorView::Message("encoding errors using "@ + enc.name)),
        None => Err(AppErrorView::UnsupportedEncoding(enc.encoding)),
    }
}

/// The outcome of encoding `text` with `enc`: the byte order mark followed
/// by the encoded text. UTF-16 text is written as UTF-16 in its byte order.
pub open spec fn encoded_file(text: Seq<char>, enc: FileEncodingView) -> Result<Seq<u8>, AppErrorView> {
    match canonical_name(enc.encoding) {
        Some(n) => if n == "UTF-16LE"@ {
            Ok(enc.bom + utf16_bytes(text, false))
        } else if n == "UTF-16BE"@ {
            Ok(enc.bom + utf16_bytes(text, true))
        } else {
            encoded_other(text, enc)
        },
        None => encoded_other(text, enc),
    }
}

fn push_unit(out: &mut Vec<u8>, u: u32, big_endian: bool)
    requires
        u < 0x10000,
    ensures
        final(out)@ == old(out)@ + unit_bytes(u as int, big_endian),
{
    let low = (u % 256) as u8;
    let high = (u / 256) as u8;
    if big_endian {
        out.push(high);
        out.push(low);
    } else {
        out.push(low);
        out.push(high);
    }
}

/// `text` as UTF-16 bytes in the given byte order.
pub fn encode_utf16(text: &str, big_endian: bool) -> (res: Vec<u8>)
    ensures
        res@ == utf16_bytes(text@, big_endian),
{
    let chars = crate::text::chars_of(text);
    let mut out: Vec<u8> = Vec::new();
    let mut i: usize = 0;
    assert(chars@.skip(0) =~= chars@);
    while i < chars.len()
        invariant
            i <= chars@.len(),
            chars@ == text@,
            out@ + utf16_bytes(chars@.skip(i as int), big_endian) == utf16_bytes(chars@, big_endian),
        decreases chars@.len() - i,
    {
        let c = chars[i];
        let ghost rest = chars@.skip(i as int);
        assert(rest.skip(1) =~= chars@.skip(i + 1));
        assert(rest[0] == c);
        let ghost before = out@;
        let v = c as u32;
        proof {
            vstd::utf8::char_is_scalar(c);
        }
        if v < 0x10000 {
            push_unit(&mut out, v, big_endian);
        } else {
            let w = v - 0x10000;
            assert(w < 0x100000);
            assert(w / 0x400 < 0x400);
            push_unit(&mut out, 0xD800 + w / 0x400, big_endian);
            push_unit(&mut out, 0xDC00 + w % 0x400, big_endian);
        }
        assert(out@ == before + char_utf16(c, big_endian));
        assert(out@ + utf16_bytes(chars@.skip(i + 1), big_endian) =~= utf16_bytes(chars@, big_endian));
        i += 1;
    }
    assert(chars@.skip(i as int) =~= Seq::<char>::empty());
    assert(out@ =~= utf16_bytes(chars@, big_endian));
    out
}

fn encode_other(text: &str, enc: &FileEncoding) -> (res: Result<Vec<u8>, AppError>)
    ensures
        match res {
            Ok(b) => encoded_other(text@, enc@) == Ok::<Seq<u8>, AppErrorView>(b@),
            Err(e) => encoded_other(text@, enc@) == Err::<Seq<u8>, AppErrorView>(e@),
        },
{
    match encode_with_label(enc.encoding.as_str(), text) {
        Some((bytes, errors)) => {
            if errors {
                Err(AppError::Message(concat_str("encoding errors using ", enc.name.as_str())))
            } else {
                let mut out: Vec<u8> = Vec::new();
                out.extend_from_slice(enc.bom.as_slice());
                out.extend_from_slice(bytes.as_slice());
                assert(out@ =~= enc.bom@ + bytes@);
                Ok(out)
            }
        },
        None => Err(AppError::UnsupportedEncoding(enc.encoding.clone())),
    }
}

/// Encodes text with a file's encoding, byte order mark first; UTF-16 text
/// is written as UTF-16 in its byte order.
pub fn encode_file(text: &str, enc: &FileEncoding) -> (res: Result<Vec<u8>, AppError>)
    ensures
        match res {
            Ok(b) => encoded_file(text@, enc@) == Ok::<Seq<u8>, AppErrorView>(b@),
            Err(e) => encoded_file(text@, enc@) == Err::<Seq<u8>, AppErrorView>(e@),
        },
        enc.encoding@ == "utf-16le"@ ==> (res matches Ok(b) && b@ == enc.bom@ + utf16_bytes(text@, false)),
        enc.encoding@ == "utf-16be"@ ==> (res matches Ok(b) && b@ == enc.bom@ + utf16_bytes(text@, true)),
{
    proof {
        reveal_strlit("utf-16le");
        reveal_strlit("utf-16be");
    }
    match encoding_name(enc.encoding.as_str()) {
        Some(n) => {
            let le = "UTF-16LE".to_owned();
            let be = "UTF-16BE".to_owned();
            proof {
                reveal_strlit("UTF-16LE");
                reveal_strlit("UTF-16BE");
                assert("UTF-16BE"@[6] != "UTF-16LE"@[6]);
            }
            let big_endian: bool;
            if n == le {
                big_endian = false;
            } else if n == be {
                big_endian = true;
            } else {
                return encode_other(text, enc);
            }
            let units = encode_utf16(text, big_endian);
            let mut out: Vec<u8> = Vec::new();
            out.extend_from_slice(enc.bom.as_slice());
            out.extend_from_slice(units.as_slice());
            assert(out@ =~= enc.bom@ + units@);
            Ok(out)
        },
        None => encode_other(text, enc),
    }
}

/// Reads a file's bytes as text: its encoding is detected, then the bytes
/// are decoded with it.
pub fn load_text(bytes: &[u8]) -> (res: Result<(FileEncoding, String), AppError>)
    ensures
        match detected_encoding(bytes@) {
            Err(e) => res matches Err(r) && r@ == e,
            Ok(enc) => match decoded_file(bytes@, enc) {
                Ok(t) => res matches Ok((f, s)) && f@ == enc && s@ == t,
                Err(e) => res matches Err(r) && r@ == e,
            },
        },
{
    let enc = match detect_encoding(bytes) {
        Ok(e) => e,
        Err(e) => {
            return Err(e);
        },
    };
    match decode_file(bytes, &enc) {
        Ok(text) => Ok((enc, text)),
        Err(e) => Err(e),
    }
}

} // verus!
