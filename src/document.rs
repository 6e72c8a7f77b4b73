//! The document around the text: front matter and run options.
use vstd::prelude::*;
use crate::splitter::{chars_of, is_white_space, suffix, white_space};
use yaml_rust2::{ScanError, Yaml, YamlLoader};

verus! {

/// `s` without trailing whitespace.
pub open spec fn trim_end(s: Seq<char>) -> Seq<char>
    decreases s.len(),
{
    if s.len() > 0 && white_space(s.last()) {
        trim_end(s.drop_last())
    } else {
        s
    }
}

/// `s` without leading whitespace.
pub open spec fn trim_start(s: Seq<char>) -> Seq<char>
    decreases s.len(),
{
    if s.len() > 0 && white_space(s[0]) {
        trim_start(s.drop_first())
    } else {
        s
    }
}

/// `s` without leading or trailing whitespace.
pub open spec fn trim(s: Seq<char>) -> Seq<char> {
    trim_start(trim_end(s))
}

/// `pat` occurs in `s` at index `i`.
pub open spec fn occurs_at(s: Seq<char>, pat: Seq<char>, i: int) -> bool {
    0 <= i && i + pat.len() <= s.len() && s.subrange(i, i + pat.len()) == pat
}

/// Index of the first occurrence of `pat` in `s` at or after `from`, or -1.
pub open spec fn find_from(s: Seq<char>, pat: Seq<char>, from: int) -> int
    decreases s.len() + 1 - from,
{
    if from < 0 || from + pat.len() > s.len() {
        -1
    } else if occurs_at(s, pat, from) {
        from
    } else {
        find_from(s, pat, from + 1)
    }
}

/// The line that closes a front matter block, with the newline before it.
pub open spec fn closing_fence() -> Seq<char> {
    seq!['\n', '-', '-', '-']
}

/// A document split into its front matter and its body. A document has front
/// matter when its first line is `---` (trailing whitespace aside) and a later
/// line starts with `---`: the front matter is what lies between, and the body
/// what follows the closing `---`, both trimmed. Otherwise the document is all
/// body, untouched.
pub open spec fn split_frontmatter(input: Seq<char>) -> (Option<Seq<char>>, Seq<char>) {
    let nl = find_from(input, seq!['\n'], 0);
    if nl < 0 || trim_end(input.subrange(0, nl)) != seq!['-', '-', '-'] {
        (None, input)
    } else {
        let rest = suffix(input, nl + 1);
        let close = find_from(rest, closing_fence(), 0);
        if close < 0 {
            (None, input)
        } else {
            (Some(trim(rest.subrange(0, close))), trim(suffix(rest, close + 4)))
        }
    }
}

/// End of `chars[from..to]` once trailing whitespace is removed.
fn trim_end_at(chars: &Vec<char>, from: usize, to: usize) -> (e: usize)
    requires
        from <= to <= chars.len(),
    ensures
        from <= e <= to,
        trim_end(chars@.subrange(from as int, to as int)) == chars@.subrange(from as int, e as int),
{
    let ghost t = chars@.subrange(from as int, to as int);
    let mut e: usize = to;
    proof {
        assert(t.take(to - from) =~= t);
    }
    while e > from && is_white_space(chars[e - 1])
        invariant
            from <= e <= to,
            to <= chars.len(),
            t == chars@.subrange(from as int, to as int),
            trim_end(t) == trim_end(t.take(e - from)),
        decreases e,
    {
        proof {
            assert(t.take(e - from).drop_last() =~= t.take(e - from - 1));
        }
        e = e - 1;
    }
    proof {
        assert(t.take(e - from) =~= chars@.subrange(from as int, e as int));
    }
    e
}

/// Removes leading and trailing whitespace from `s[from..to]`.
fn trim_range<'a>(s: &'a str, chars: &Vec<char>, from: usize, to: usize) -> (r: &'a str)
    requires
        chars@ == s@,
        from <= to <= chars.len(),
    ensures
        r@ == trim(s@.subrange(from as int, to as int)),
{
    let e = trim_end_at(chars, from, to);
    let ghost u = s@.subrange(from as int, e as int);
    let mut b: usize = from;
    proof {
        assert(u.subrange(0, e - from) =~= u);
    }
    while b < e && is_white_space(chars[b])
        invariant
            from <= b <= e,
            e <= to <= chars.len(),
            chars@ == s@,
            u == s@.subrange(from as int, e as int),
            trim_start(u) == trim_start(u.subrange(b - from, e - from)),
        decreases e - b,
    {
        proof {
            assert(u.subrange(b - from, e - from).drop_first() =~= u.subrange(b - from + 1, e - from));
        }
        b = b + 1;
    }
    proof {
        assert(u.subrange(b - from, e - from) =~= s@.subrange(b as int, e as int));
        assert(u.subrange(0, e - from) =~= u);
    }
    s.substring_char(b, e)
}

/// Index of the first occurrence of `pat` in `chars` at or after `from`.
fn find_chars(chars: &Vec<char>, pat: &Vec<char>, from: usize) -> (r: Option<usize>)
    requires
        from <= chars.len(),
    ensures
        match r {
            Some(i) => i as int == find_from(chars@, pat@, from as int),
            None => find_from(chars@, pat@, from as int) == -1,
        },
{
    let n = chars.len();
    let k = pat.len();
    if k > n {
        return None;
    }
    let mut i: usize = from;
    while k <= n - i
        invariant
            from <= i <= n,
            n == chars.len(),
            k == pat.len(),
            k <= n,
            find_from(chars@, pat@, from as int) == find_from(chars@, pat@, i as int),
        decreases n - i,
    {
        let mut j: usize = 0;
        let mut same = true;
        proof {
            assert(chars@.subrange(i as int, i as int) =~= pat@.take(0));
        }
        while j < k
            invariant
                j <= k,
                i + k <= n,
                n == chars.len(),
                k == pat.len(),
                same == (chars@.subrange(i as int, i + j) == pat@.take(j as int)),
            decreases k - j,
        {
            let c = chars[i + j];
            let p = pat[j];
            proof {
                let a = chars@.subrange(i as int, i + j);
                let b = pat@.take(j as int);
                assert(chars@.subrange(i as int, i + j + 1) =~= a.push(c));
                assert(pat@.take(j + 1) =~= b.push(p));
                if a.push(c) == b.push(p) {
                    assert(a =~= a.push(c).drop_last());
                    assert(b =~= b.push(p).drop_last());
                    assert(a.push(c).last() == c);
                }
            }
            same = same && c == p;
            j = j + 1;
        }
        proof {
            assert(pat@.take(k as int) =~= pat@);
        }
        if same {
            return Some(i);
        }
        i = i + 1;
    }
    None
}

/// Splits `input` into its front matter, if it has any, and its body.
pub fn strip_frontmatter(input: &str) -> (r: (Option<&str>, &str))
    ensures
        r.1@ == split_frontmatter(input@).1,
        match r.0 {
            Some(front) => split_frontmatter(input@).0 == Some(front@),
            None => split_frontmatter(input@).0 is None,
        },
{
    let chars = chars_of(input);
    let n = chars.len();
    let mut newline: Vec<char> = Vec::new();
    newline.push('\n');
    let mut fence: Vec<char> = Vec::new();
    fence.push('\n');
    fence.push('-');
    fence.push('-');
    fence.push('-');
    proof {
        assert(newline@ =~= seq!['\n']);
        assert(fence@ =~= closing_fence());
    }
    let nl = match find_chars(&chars, &newline, 0) {
        Some(i) => i,
        None => {
            return (None, input);
        },
    };
    proof {
        lemma_find_bounds(chars@, newline@, 0);
    }
    let first_end = trim_end_at(&chars, 0, nl);
    let opens = first_end == 3 && chars[0] == '-' && chars[1] == '-' && chars[2] == '-';
    proof {
        let fence3 = seq!['-', '-', '-'];
        assert(fence3.len() == 3);
        assert(input@.subrange(0, first_end as int) == fence3 ==> first_end == 3);
        if opens {
            assert(input@.subrange(0, first_end as int) =~= seq!['-', '-', '-']);
        }
    }
    if !opens {
        return (None, input);
    }
    let start = nl + 1;
    let close = match find_chars(&chars, &fence, start) {
        Some(i) => i,
        None => {
            proof {
                lemma_find_shift(chars@, fence@, start as int);
            }
            return (None, input);
        },
    };
    proof {
        lemma_find_shift(chars@, fence@, start as int);
        lemma_find_bounds(chars@, fence@, start as int);
        let rest = suffix(input@, start as int);
        assert(rest.subrange(0, close - start) =~= input@.subrange(start as int, close as int));
        assert(suffix(rest, close - start + 4) =~= input@.subrange(close + 4, n as int));
    }
    let front = trim_range(input, &chars, start, close);
    let body = trim_range(input, &chars, close + 4, n);
    (Some(front), body)
}

proof fn lemma_find_bounds(s: Seq<char>, pat: Seq<char>, from: int)
    ensures
        find_from(s, pat, from) == -1 || (from <= find_from(s, pat, from) && occurs_at(
            s,
            pat,
            find_from(s, pat, from),
        )),
    decreases s.len() + 1 - from,
{
    if !(from < 0 || from + pat.len() > s.len()) && !occurs_at(s, pat, from) {
        lemma_find_bounds(s, pat, from + 1);
    }
}

/// Searching a suffix is searching the whole from where the suffix starts.
proof fn lemma_find_shift(s: Seq<char>, pat: Seq<char>, start: int)
    requires
        0 <= start <= s.len(),
    ensures
        find_from(suffix(s, start), pat, 0) == -1 <==> find_from(s, pat, start) == -1,
        find_from(s, pat, start) >= 0 ==> find_from(suffix(s, start), pat, 0) == find_from(
            s,
            pat,
            start,
        ) - start,
{
    lemma_find_shift_from(s, pat, start, 0);
}

proof fn lemma_find_shift_from(s: Seq<char>, pat: Seq<char>, start: int, i: int)
    requires
        0 <= start <= s.len(),
        0 <= i,
    ensures
        find_from(suffix(s, start), pat, i) == -1 <==> find_from(s, pat, start + i) == -1,
        find_from(s, pat, start + i) >= 0 ==> find_from(suffix(s, start), pat, i) == find_from(
            s,
            pat,
            start + i,
        ) - start,
    decreases s.len() + 1 - start - i,
{
    let t = suffix(s, start);
    if i + pat.len() <= t.len() {
        assert(t.subrange(i, i + pat.len()) =~= s.subrange(start + i, start + i + pat.len()));
        if !occurs_at(t, pat, i) {
            lemma_find_shift_from(s, pat, start, i + 1);
        }
    }
}

/// Title given to a document whose front matter names none.
pub const DEFAULT_TITLE: &'static str = "Markwrite Document";

/// Metadata read from a document's front matter.
#[derive(Debug, PartialEq, Eq)]
pub struct Frontmatter {
    pub title: Option<String>,
    pub description: Option<String>,
    pub canonical_url: Option<String>,
}

impl Frontmatter {
    /// The title the document is published under: its own, or `DEFAULT_TITLE`.
    pub fn document_title(&self) -> (r: &str)
        ensures
            r@ == match self.title {
                Some(t) => t@,
                None => DEFAULT_TITLE@,
            },
    {
        match &self.title {
            Some(value) => value.as_str(),
            None => DEFAULT_TITLE,
        }
    }
}

#[verifier::external_type_specification]
#[verifier::external_body]
pub struct ExYaml(Yaml);

#[verifier::external_type_specification]
#[verifier::external_body]
pub struct ExScanError(ScanError);

/// Relies on yaml_rust2's `YamlLoader::load_from_str`, which parses the
/// source into its YAML documents or fails with a `ScanError`.
pub assume_specification[ YamlLoader::load_from_str ](source: &str) -> Result<
    Vec<Yaml>,
    ScanError,
>;

/// Relies on yaml_rust2's `Yaml::as_str`, which gives the string a node holds,
/// if it is a string node.
pub assume_specification[ Yaml::as_str ](node: &Yaml) -> Option<&str>;

/// Relies on yaml_rust2's `Index<&str>` for `Yaml`, which gives the value under
/// `key` in a mapping, or a `BadValue` node.
#[verifier::external_body]
fn yaml_entry<'a>(node: &'a Yaml, key: &str) -> &'a Yaml {
    &node[key]
}

/// The string under `key` in a YAML mapping, if there is one.
fn yaml_string_entry(node: &Yaml, key: &str) -> Option<String> {
    match yaml_entry(node, key).as_str() {
        Some(value) => Some(value.to_string()),
        None => None,
    }
}

impl Frontmatter {
    /// Metadata without any entry.
    pub fn empty() -> (r: Frontmatter)
        ensures
            r.title is None,
            r.description is None,
            r.canonical_url is None,
    {
        Frontmatter { title: None, description: None, canonical_url: None }
    }

    /// Reads the `title`, `description` and `canonical_url` strings of the
    /// first YAML document of `source`. Source that is not YAML, or holds no
    /// document, gives metadata without any entry.
    pub fn from_yaml(source: &str) -> Frontmatter {
        let documents = match YamlLoader::load_from_str(source) {
            Ok(documents) => documents,
            Err(_) => {
                return Frontmatter::empty();
            },
        };
        if documents.len() == 0 {
            return Frontmatter::empty();
        }
        let doc = &documents[0];
        Frontmatter {
            title: yaml_string_entry(doc, "title"),
            description: yaml_string_entry(doc, "description"),
            canonical_url: yaml_string_entry(doc, "canonical_url"),
        }
    }
}

/// Options of one run of the tool.
pub struct MarkwriteOptions {
    check_grammar: bool,
}

impl View for MarkwriteOptions {
    /// Whether the grammar check runs.
    type V = bool;

    closed spec fn view(&self) -> bool {
        self.check_grammar
    }
}

impl Default for MarkwriteOptions {
    /// Options with the grammar check off.
    fn default() -> (r: MarkwriteOptions)
        ensures
            !r@,
    {
        MarkwriteOptions { check_grammar: false }
    }
}

impl MarkwriteOptions {
    /// Whether the grammar check runs.
    pub fn check_grammar(&self) -> (r: bool)
        ensures
            r == self@,
    {
        self.check_grammar
    }

    /// Turns the grammar check on.
    pub fn enable_grammar_check(&mut self)
        ensures
            final(self)@,
    {
        self.check_grammar = true;
    }
}

} // verus!
