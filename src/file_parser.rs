//! Recognising and decoding uploaded files.
use vstd::prelude::*;
use vstd::string::StrSliceExecFns;
use vstd::utf8::{decode_utf8, valid_utf8};
use crate::error::EngineError;

verus! {

/// `b` begins with the bytes of `prefix`.
pub open spec fn starts_with(b: Seq<u8>, prefix: Seq<u8>) -> bool {
    prefix.len() <= b.len() && b.subrange(0, prefix.len() as int) == prefix
}

/// `%PDF`
pub open spec fn pdf_magic() -> Seq<u8> {
    seq![37u8, 80u8, 68u8, 70u8]
}

/// `PK`, the start of a zip archive.
pub open spec fn zip_magic() -> Seq<u8> {
    seq![80u8, 75u8]
}

/// `<html`
pub open spec fn html_open() -> Seq<u8> {
    seq![60u8, 104u8, 116u8, 109u8, 108u8]
}

/// `<!DOCTYPE`
pub open spec fn doctype_open() -> Seq<u8> {
    seq![60u8, 33u8, 68u8, 79u8, 67u8, 84u8, 89u8, 80u8, 69u8]
}

/// The file type that the leading bytes of `content` announce.
pub open spec fn detected_type(content: Seq<u8>) -> Seq<char> {
    if starts_with(content, pdf_magic()) {
        seq!['p', 'd', 'f']
    } else if starts_with(content, zip_magic()) {
        seq!['d', 'o', 'c', 'x']
    } else if starts_with(content, html_open()) || starts_with(content, doctype_open()) {
        seq!['h', 't', 'm', 'l']
    } else {
        seq!['t', 'x', 't']
    }
}

/// The text after the last `.` of `name`; all of `name` when it has no `.`.
pub open spec fn after_last_dot(name: Seq<char>) -> Seq<char>
    decreases name.len(),
{
    if name.len() == 0 {
        name
    } else if name.last() == '.' {
        Seq::<char>::empty()
    } else {
        after_last_dot(name.drop_last()).push(name.last())
    }
}

/// What `str::to_lowercase` returns for the characters `s`.
pub uninterp spec fn lowercase_of(s: Seq<char>) -> Seq<char>;

/// Relies on `str::to_lowercase`: its result depends on the characters alone,
/// and the empty string stays empty.
#[verifier::external_body]
fn to_lowercase(s: &str) -> (r: String)
    ensures
        r@ == lowercase_of(s@),
        s@.len() == 0 ==> r@.len() == 0,
{
    s.to_lowercase()
}

/// Relies on `String::from_utf8`: it accepts exactly the valid UTF-8 byte
/// sequences and then holds the characters they encode.
#[verifier::external_body]
fn string_from_utf8(bytes: &[u8]) -> (r: Option<String>)
    ensures
        r is Some <==> valid_utf8(bytes@),
        r matches Some(s) ==> s@ == decode_utf8(bytes@),
{
    String::from_utf8(bytes.to_vec()).ok()
}

fn has_prefix(b: &[u8], prefix: &Vec<u8>) -> (r: bool)
    ensures
        r == starts_with(b@, prefix@),
{
    if prefix.len() > b.len() {
        return false;
    }
    let mut i: usize = 0;
    while i < prefix.len()
        invariant
            prefix@.len() <= b@.len(),
            i <= prefix@.len(),
            forall|j: int| 0 <= j < i ==> b@[j] == prefix@[j],
        decreases prefix@.len() - i,
    {
        if b[i] != prefix[i] {
            assert(b@.subrange(0, prefix@.len() as int)[i as int] != prefix@[i as int]);
            return false;
        }
        i = i + 1;
    }
    assert(b@.subrange(0, prefix@.len() as int) =~= prefix@);
    true
}

/// `pat` occurs in `s` at position `i`.
pub open spec fn occurs_at(s: Seq<char>, i: int, pat: Seq<char>) -> bool {
    0 <= i && i + pat.len() <= s.len() && s.subrange(i, i + pat.len()) == pat
}

/// `<script`
pub open spec fn script_open() -> Seq<char> {
    seq!['<', 's', 'c', 'r', 'i', 'p', 't']
}

/// `<script` with a NUL after the `<`.
pub open spec fn masked_open() -> Seq<char> {
    seq!['<', '\0', 's', 'c', 'r', 'i', 'p', 't']
}

/// `</script>`
pub open spec fn script_close() -> Seq<char> {
    seq!['<', '/', 's', 'c', 'r', 'i', 'p', 't', '>']
}

/// `</script>` with a NUL after the `</`.
pub open spec fn masked_close() -> Seq<char> {
    seq!['<', '/', '\0', 's', 'c', 'r', 'i', 'p', 't', '>']
}

/// A script element, or a masked one, starts at `i`.
pub open spec fn opens_script(s: Seq<char>, i: int) -> bool {
    occurs_at(s, i, script_open()) || occurs_at(s, i, masked_open())
}

/// The first position from `i` on where a script element starts, or the
/// length of `s` when none does.
pub open spec fn script_cut_from(s: Seq<char>, i: int) -> int
    decreases s.len() - i,
{
    if i >= s.len() || i < 0 {
        s.len() as int
    } else if opens_script(s, i) {
        i
    } else {
        script_cut_from(s, i + 1)
    }
}

/// `s` with every closing script tag, left to right, masked by a NUL.
pub open spec fn mask_closes(s: Seq<char>) -> Seq<char>
    decreases s.len(),
{
    if s.len() == 0 {
        s
    } else if occurs_at(s, 0, script_close()) {
        masked_close() + mask_closes(s.skip(9))
    } else {
        seq![s[0]] + mask_closes(s.skip(1))
    }
}

/// The text that HTML extraction keeps of `s`: everything before the first
/// script element, with closing script tags masked.
pub open spec fn html_text(s: Seq<char>) -> Seq<char> {
    mask_closes(s.take(script_cut_from(s, 0)))
}

/// `r` is the text that `content` encodes, or `InvalidUtf8` exactly when
/// `content` is not valid UTF-8.
pub open spec fn text_decoded(r: Result<String, EngineError>, content: Seq<u8>) -> bool {
    match r {
        Ok(s) => valid_utf8(content) && s@ == decode_utf8(content),
        Err(e) => !valid_utf8(content) && e == EngineError::InvalidUtf8,
    }
}

/// `r` is the text that HTML extraction keeps of what `content` encodes, or
/// `InvalidUtf8` exactly when `content` is not valid UTF-8.
pub open spec fn html_decoded(r: Result<String, EngineError>, content: Seq<u8>) -> bool {
    match r {
        Ok(s) => valid_utf8(content) && s@ == html_text(decode_utf8(content)),
        Err(e) => !valid_utf8(content) && e == EngineError::InvalidUtf8,
    }
}

/// `r` is what extraction gives for `content` of a file with extension `ext`.
pub open spec fn parsed_as(ext: Seq<char>, r: Result<String, EngineError>, content: Seq<u8>) -> bool {
    if ext == "txt"@ || ext == "md"@ {
        text_decoded(r, content)
    } else if ext == "html"@ || ext == "htm"@ {
        html_decoded(r, content)
    } else if ext == "pdf"@ || ext == "docx"@ {
        r == Err::<String, EngineError>(EngineError::ParserUnavailable)
    } else {
        r == Err::<String, EngineError>(EngineError::UnsupportedFileType)
    }
}

/// Relies on `collect` into a `String`: the text made of `cs` in order.
#[verifier::external_body]
fn string_of(cs: &[char]) -> (r: String)
    ensures
        r@ == cs@,
{
    cs.iter().collect()
}

fn matches_at(s: &Vec<char>, i: usize, pat: &Vec<char>) -> (r: bool)
    ensures
        r == occurs_at(s@, i as int, pat@),
{
    if i > s.len() || pat.len() > s.len() - i {
        return false;
    }
    let n = s.len();
    let mut j: usize = 0;
    while j < pat.len()
        invariant
            n == s@.len(),
            i + pat@.len() <= s@.len(),
            j <= pat@.len(),
            forall|t: int| 0 <= t < j ==> s@[i + t] == pat@[t],
        decreases pat@.len() - j,
    {
        if s[i + j] != pat[j] {
            assert(s@.subrange(i as int, i + pat@.len())[j as int] != pat@[j as int]);
            return false;
        }
        j = j + 1;
    }
    assert(s@.subrange(i as int, i + pat@.len()) =~= pat@);
    true
}

/// Lemma: a scan back to the last `.` finds exactly `after_last_dot`.
proof fn lemma_after_last_dot(name: Seq<char>, i: int)
    requires
        0 <= i <= name.len(),
        forall|j: int| i <= j < name.len() ==> name[j] != '.',
        i == 0 || name[i - 1] == '.',
    ensures
        after_last_dot(name) == name.subrange(i, name.len() as int),
    decreases name.len(),
{
    if name.len() == i {
        assert(name.subrange(i, name.len() as int) =~= Seq::<char>::empty());
        if i == 0 {
            assert(name =~= Seq::<char>::empty());
        }
    } else {
        lemma_after_last_dot(name.drop_last(), i);
        assert(name.subrange(i, name.len() as int) =~= name.drop_last().subrange(
            i,
            name.len() - 1,
        ).push(name.last()));
    }
}

/// File-type recognition and text extraction.
pub struct FileParser;

impl FileParser {
    /// The part of `file_name` after its last `.`, as written.
    pub fn extension_of(file_name: &str) -> (ext: &str)
        ensures
            ext@ == after_last_dot(file_name@),
    {
        let n = file_name.unicode_len();
        let mut i: usize = n;
        while i > 0 && file_name.get_char(i - 1) != '.'
            invariant
                i <= n,
                n == file_name@.len(),
                forall|j: int| i <= j < n ==> file_name@[j] != '.',
            decreases i,
        {
            i = i - 1;
        }
        proof {
            lemma_after_last_dot(file_name@, i as int);
        }
        file_name.substring_char(i, n)
    }

    /// The extension of `file_name` in lower case.
    pub fn get_extension(file_name: &str) -> (ext: String)
        ensures
            ext@ == lowercase_of(after_last_dot(file_name@)),
    {
        to_lowercase(Self::extension_of(file_name))
    }

    /// Decodes `content` as UTF-8 text.
    pub fn parse_text(content: &[u8]) -> (r: Result<String, EngineError>)
        ensures
            text_decoded(r, content@),
    {
        match string_from_utf8(content) {
            Some(s) => Ok(s),
            None => Err(EngineError::InvalidUtf8),
        }
    }

    /// Extracts the text of content whose lower-cased extension is `ext`:
    /// `txt` and `md` are plain text, `html` and `htm` are HTML, `pdf` and
    /// `docx` have no extraction yet, and anything else is unsupported.
    pub fn parse_by_extension(ext: &String, content: &[u8]) -> (r: Result<String, EngineError>)
        ensures
            parsed_as(ext@, r, content@),
    {
        if *ext == "txt".to_owned() || *ext == "md".to_owned() {
            Self::parse_text(content)
        } else if *ext == "html".to_owned() || *ext == "htm".to_owned() {
            Self::parse_html(content)
        } else if *ext == "pdf".to_owned() || *ext == "docx".to_owned() {
            Err(EngineError::ParserUnavailable)
        } else {
            Err(EngineError::UnsupportedFileType)
        }
    }

    /// Extracts the text of the file `file_name`, chosen by its extension
    /// in lower case.
    pub fn parse(file_name: &str, content: &[u8]) -> (r: Result<String, EngineError>)
        ensures
            parsed_as(lowercase_of(after_last_dot(file_name@)), r, content@),
    {
        let ext = Self::get_extension(file_name);
        Self::parse_by_extension(&ext, content)
    }

    /// Extracts text from HTML: decodes it as UTF-8, keeps what comes
    /// before the first script element, and masks closing script tags.
    pub fn parse_html(content: &[u8]) -> (r: Result<String, EngineError>)
        ensures
            html_decoded(r, content@),
    {
        let html = match string_from_utf8(content) {
            Some(h) => h,
            None => {
                return Err(EngineError::InvalidUtf8);
            },
        };
        let mut cs: Vec<char> = Vec::new();
        for c in it: html.as_str().chars()
            invariant
                it.seq() == html@,
                cs@ == it.seq().take(it.index() as int),
        {
            proof {
                assert(it.seq().take(it.index() as int + 1) =~= cs@.push(c));
            }
            cs.push(c);
        }
        assert(cs@ =~= html@);
        let ghost text = cs@;
        let open: Vec<char> = vec!['<', 's', 'c', 'r', 'i', 'p', 't'];
        let masked: Vec<char> = vec!['<', '\0', 's', 'c', 'r', 'i', 'p', 't'];
        let close: Vec<char> = vec!['<', '/', 's', 'c', 'r', 'i', 'p', 't', '>'];
        proof {
            assert(open@ =~= script_open());
            assert(masked@ =~= masked_open());
            assert(close@ =~= script_close());
        }
        let mut cut: usize = 0;
        while cut < cs.len() && !matches_at(&cs, cut, &open) && !matches_at(&cs, cut, &masked)
            invariant
                cut <= cs@.len(),
                cs@ == text,
                open@ == script_open(),
                masked@ == masked_open(),
                script_cut_from(text, 0) == script_cut_from(text, cut as int),
            decreases cs@.len() - cut,
        {
            cut = cut + 1;
        }
        assert(script_cut_from(text, cut as int) == cut);
        let ghost prefix = text.take(cut as int);
        let mut out: Vec<char> = Vec::new();
        let mut i: usize = 0;
        assert(prefix.skip(0) =~= prefix);
        while i < cut
            invariant
                cut <= cs@.len(),
                i <= cut,
                cs@ == text,
                prefix == text.take(cut as int),
                close@ == script_close(),
                out@ + mask_closes(prefix.skip(i as int)) == mask_closes(prefix),
            decreases cut - i,
        {
            let ghost rest = prefix.skip(i as int);
            if cut - i >= 9 && matches_at(&cs, i, &close) {
                proof {
                    assert(rest.subrange(0, 9) =~= text.subrange(i as int, i + 9));
                    assert(rest.skip(9) =~= prefix.skip(i + 9));
                }
                let ghost before = out@;
                out.push('<');
                out.push('/');
                out.push('\0');
                out.push('s');
                out.push('c');
                out.push('r');
                out.push('i');
                out.push('p');
                out.push('t');
                out.push('>');
                proof {
                    assert(out@ =~= before + masked_close());
                }
                i = i + 9;
            } else {
                proof {
                    if cut - i >= 9 {
                        assert(rest.subrange(0, 9) =~= text.subrange(i as int, i + 9));
                    }
                    assert(rest.skip(1) =~= prefix.skip(i + 1));
                }
                out.push(cs[i]);
                i = i + 1;
            }
        }
        proof {
            assert(prefix.skip(cut as int) =~= Seq::<char>::empty());
            assert(out@ =~= mask_closes(prefix));
        }
        Ok(string_of(out.as_slice()))
    }

    /// Names the file type from the first bytes of `content`: `pdf`, `docx`
    /// (a zip archive), `html`, or else `txt`.
    pub fn detect_type(content: &[u8]) -> (t: String)
        ensures
            t@ == detected_type(content@),
    {
        let pdf: Vec<u8> = vec![37u8, 80u8, 68u8, 70u8];
        let zip: Vec<u8> = vec![80u8, 75u8];
        let html: Vec<u8> = vec![60u8, 104u8, 116u8, 109u8, 108u8];
        let doctype: Vec<u8> = vec![60u8, 33u8, 68u8, 79u8, 67u8, 84u8, 89u8, 80u8, 69u8];
        proof {
            assert(pdf@ =~= pdf_magic());
            assert(zip@ =~= zip_magic());
            assert(html@ =~= html_open());
            assert(doctype@ =~= doctype_open());
            reveal_strlit("pdf");
            reveal_strlit("docx");
            reveal_strlit("html");
            reveal_strlit("txt");
        }
        if has_prefix(content, &pdf) {
            "pdf".to_owned()
        } else if has_prefix(content, &zip) {
            "docx".to_owned()
        } else if has_prefix(content, &html) || has_prefix(content, &doctype) {
            "html".to_owned()
        } else {
            "txt".to_owned()
        }
    }
}

} // verus!
