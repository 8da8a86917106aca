//! Which backend owns a file, and the one place that decides.
//!
//! Everything downstream of a parse consumes the same artifacts -- a flat unit list, a containment
//! tree, per-line syntax marks -- so a *format* is exactly the code that produces them.
use vstd::prelude::*;
use vstd::string::*;
use crate::blocks::{
    all_on_file, hierarchy, in_file, law_units_lie_in_the_file, lemma_in_file_is_positioned,
    line_total, lines_of, positioned, units, Block, Tree, TreeNode,
};
use crate::highlight::{all_marks, mark_views, LineMarks};
use crate::md::{comrak_nodes, document, extensions};
use crate::plain::{law_paragraphs_partition_the_lines, paragraphs, plain_tree};
use crate::text::{
    lemma_split_append, lemma_split_whole, pieces, slices, split_on, str_eq, Laid,
};

verus! {

/// Every format name `--format` accepts, in the order the usage text lists them.
pub const NAMES: [&'static str; 2] = ["markdown", "plain"];

#[derive(Debug, Clone, Copy, PartialEq, Eq, Default, Structural)]
pub enum Format {
    #[default]
    Markdown,
    Plain,
}

/// A letter in lower case; every other character as it is.
pub open spec fn lower(c: char) -> char {
    if 'A' <= c <= 'Z' {
        ((c as u32) + 32) as char
    } else {
        c
    }
}

/// `s` is `word`, which is in lower case, but for the case of its letters.
pub open spec fn same_word(s: Seq<char>, word: Seq<char>) -> bool {
    s.len() == word.len() && forall|i: int| 0 <= i < s.len() ==> lower(#[trigger] s[i]) == word[i]
}

/// A part of a path that names nothing: an empty one, or the directory itself.
pub open spec fn names_nothing(part: Seq<char>) -> bool {
    part.len() == 0 || part == "."@
}

/// The file name that a path ends in, of its first `n` parts.
pub open spec fn file_name(parts: Seq<Seq<char>>, n: int) -> Option<Seq<char>>
    decreases n,
{
    if n <= 0 {
        None
    } else if names_nothing(parts[n - 1]) {
        file_name(parts, n - 1)
    } else if parts[n - 1] == ".."@ {
        None
    } else {
        Some(parts[n - 1])
    }
}

/// What follows the last dot of the first `n` characters of a name; nothing where the only dot is
/// at the front, or there is none.
pub open spec fn after_dot(name: Seq<char>, n: int) -> Seq<char>
    decreases n,
{
    if n <= 1 {
        Seq::empty()
    } else if name[n - 1] == '.' {
        name.skip(n)
    } else {
        after_dot(name, n - 1)
    }
}

/// The extension of the file that a path names.
pub open spec fn extension(path: Seq<char>) -> Seq<char> {
    let parts = split_on(path, '/');
    match file_name(parts, parts.len() as int) {
        Some(name) => after_dot(name, name.len() as int),
        None => Seq::empty(),
    }
}

pub open spec fn format_for(path: Seq<char>) -> Format {
    if same_word(extension(path), "md"@) || same_word(extension(path), "markdown"@) {
        Format::Markdown
    } else {
        Format::Plain
    }
}

fn lowered(c: char) -> (r: char)
    ensures
        r == lower(c),
{
    if 'A' <= c && c <= 'Z' {
        ((c as u8) + 32) as char
    } else {
        c
    }
}

fn is_word(s: &str, word: &str) -> (r: bool)
    ensures
        r == same_word(s@, word@),
{
    let a = Laid::new(s);
    let b = Laid::new(word);
    if a.chars.len() != b.chars.len() {
        return false;
    }
    let mut i: usize = 0;
    while i < a.chars.len()
        invariant
            a.wf(),
            a.text@ == s@,
            b.wf(),
            b.text@ == word@,
            s@.len() == word@.len(),
            i <= s@.len(),
            forall|k: int| 0 <= k < i ==> lower(#[trigger] s@[k]) == word@[k],
        decreases s@.len() - i,
    {
        if lowered(a.chars[i]) != b.chars[i] {
            assert(lower(s@[i as int]) != word@[i as int]);
            return false;
        }
        i += 1;
    }
    true
}

fn extension_of<'a>(path: &'a str) -> (r: &'a str)
    ensures
        r@ == extension(path@),
{
    let parts = pieces(path, '/');
    let ghost ps = slices(parts@);
    let mut n: usize = parts.len();
    while n > 0 && (str_eq(parts[n - 1], "") || str_eq(parts[n - 1], "."))
        invariant
            n <= parts@.len(),
            ps == slices(parts@),
            file_name(ps, n as int) == file_name(ps, parts@.len() as int),
        decreases n,
    {
        proof {
            reveal_strlit("");
            assert(""@ =~= Seq::<char>::empty());
        }
        n -= 1;
    }
    proof {
        reveal_strlit("");
        assert(""@ =~= Seq::<char>::empty());
        if n > 0 {
            assert(ps[n - 1] == parts@[n - 1]@);
            if ps[n - 1].len() == 0 {
                assert(ps[n - 1] =~= ""@);
            }
        }
    }
    if n == 0 || str_eq(parts[n - 1], "..") {
        return "";
    }
    let name = parts[n - 1];
    let l = Laid::new(name);
    let len: usize = l.chars.len();
    let mut k: usize = len;
    while k > 1 && l.chars[k - 1] != '.'
        invariant
            l.wf(),
            l.text@ == name@,
            len == name@.len(),
            k <= len,
            after_dot(name@, k as int) == after_dot(name@, len as int),
        decreases k,
    {
        k -= 1;
    }
    if k <= 1 {
        return "";
    }
    proof {
        assert(name@.skip(k as int) =~= name@.subrange(k as int, len as int));
    }
    l.sub(k, len)
}

/// The units a format reads.
pub open spec fn format_units(f: Format, src: Seq<char>) -> Seq<Block> {
    match f {
        Format::Markdown => units(document(comrak_nodes(src, extensions())), lines_of(src)),
        Format::Plain => paragraphs(lines_of(src)),
    }
}

/// The hierarchy a format reads.
pub open spec fn format_tree(f: Format, src: Seq<char>) -> Tree {
    match f {
        Format::Markdown => hierarchy(document(comrak_nodes(src, extensions())), lines_of(src)),
        Format::Plain => plain_tree(lines_of(src)),
    }
}

/// The marks a format puts on the lines of a document with hierarchy `t`.
pub open spec fn format_marks(f: Format, t: Tree, src: Seq<char>) -> Seq<
    Seq<(usize, usize, &'static str)>,
> {
    match f {
        Format::Markdown => all_marks(t, lines_of(src)),
        Format::Plain => Seq::new(
            lines_of(src).len(),
            |i: int| Seq::<(usize, usize, &'static str)>::empty(),
        ),
    }
}

impl Format {
    /// The format a path's extension names -- and `Plain` for every extension no backend claims,
    /// including none at all. Extension, never content sniffing.
    pub fn of_path(path: &str) -> (r: Self)
        ensures
            r == format_for(path@),
    {
        let ext = extension_of(path);
        if is_word(ext, "md") || is_word(ext, "markdown") {
            Format::Markdown
        } else {
            Format::Plain
        }
    }

    /// The `--format` spelling, or `None` for a name no backend answers to.
    pub fn from_name(name: &str) -> (r: Option<Self>)
        ensures
            r == if name@ == "markdown"@ {
                Some(Format::Markdown)
            } else if name@ == "plain"@ {
                Some(Format::Plain)
            } else {
                None
            },
    {
        if str_eq(name, "markdown") {
            Some(Format::Markdown)
        } else if str_eq(name, "plain") {
            Some(Format::Plain)
        } else {
            None
        }
    }

    /// The flat navigation units.
    pub fn parse(self, src: &str) -> (r: Vec<Block>)
        ensures
            r@ == format_units(self, src@),
            all_on_file(r@, line_total(lines_of(src@))),
    {
        let _n: usize = crate::blocks::source_lines(src).len();
        proof {
            law_units_lie_in_the_file(document(comrak_nodes(src@, extensions())), lines_of(src@));
            law_paragraphs_partition_the_lines(lines_of(src@));
        }
        match self {
            Format::Markdown => crate::blocks::parse(src),
            Format::Plain => crate::plain::parse(src),
        }
    }

    /// The containment hierarchy.
    pub fn parse_tree(self, src: &str) -> (r: TreeNode)
        ensures
            r.shape() == format_tree(self, src@),
            in_file(r.shape(), line_total(lines_of(src@))),
            positioned(r.shape()),
    {
        let r = match self {
            Format::Markdown => crate::blocks::parse_tree(src),
            Format::Plain => crate::plain::parse_tree(src),
        };
        proof {
            lemma_in_file_is_positioned(r.shape(), line_total(lines_of(src@)));
        }
        r
    }

    /// Per-line syntax marks. Takes the tree the caller already built rather than parsing a second
    /// time.
    pub fn marks(self, tree: &TreeNode, src: &str) -> (r: Vec<LineMarks>)
        requires
            positioned(tree.shape()),
        ensures
            mark_views(r@) == format_marks(self, tree.shape(), src@),
    {
        match self {
            Format::Markdown => crate::highlight::marks(tree, src),
            Format::Plain => crate::plain::marks(src),
        }
    }
}

proof fn lemma_after_dot(name: Seq<char>, at: int, n: int)
    requires
        0 < at < n <= name.len(),
        name[at] == '.',
        forall|i: int| at < i < n ==> #[trigger] name[i] != '.',
    ensures
        after_dot(name, n) == name.skip(at + 1),
    decreases n,
{
    if n - 1 > at {
        lemma_after_dot(name, at, n - 1);
    }
}

proof fn lemma_no_dot(name: Seq<char>, n: int)
    requires
        n <= name.len(),
        forall|i: int| 0 < i < n ==> #[trigger] name[i] != '.',
    ensures
        after_dot(name, n).len() == 0,
    decreases n,
{
    if n > 1 {
        lemma_no_dot(name, n - 1);
    }
}

/// The extension of a file is what follows the last dot of its name, in whatever directory it is; a
/// dot of the directory is none of it. A name whose only dot is its first character, or that has
/// none, has no extension.
pub proof fn law_the_extension_follows_the_last_dot(dir: Seq<char>, stem: Seq<char>, ext: Seq<char>)
    requires
        stem.len() > 0,
        ext.len() > 0,
        forall|i: int| 0 <= i < stem.len() ==> #[trigger] stem[i] != '/',
        forall|i: int| 0 <= i < ext.len() ==> #[trigger] ext[i] != '/' && ext[i] != '.',
    ensures
        extension(dir + seq!['/'] + (stem + seq!['.'] + ext)) == ext,
        extension(stem + seq!['.'] + ext) == ext,
        (forall|i: int| 0 < i < stem.len() ==> #[trigger] stem[i] != '.') && stem[0] != '.' ==> extension(
            dir + seq!['/'] + stem,
        ).len() == 0,
{
    let name = stem + seq!['.'] + ext;
    let at = stem.len() as int;
    reveal_strlit(".");
    reveal_strlit("..");
    assert("."@.len() == 1 && ".."@.len() == 2);
    assert forall|i: int| 0 <= i < name.len() implies #[trigger] name[i] != '/' by {
        if i < at {
            assert(name[i] == stem[i]);
        } else if i > at {
            assert(name[i] == ext[i - at - 1]);
        }
    }
    assert forall|i: int| at < i < name.len() implies #[trigger] name[i] != '.' by {
        assert(name[i] == ext[i - at - 1]);
    }
    assert(name[at] == '.');
    lemma_after_dot(name, at, name.len() as int);
    assert(name.skip(at + 1) =~= ext);
    lemma_split_append(dir, '/', name);
    lemma_split_whole(name, '/');
    let parts = split_on(dir, '/').push(name);
    assert(parts[parts.len() - 1] == name);
    assert(file_name(parts, parts.len() as int) == Some(name));
    assert(file_name(seq![name], 1) == Some(name));
    if (forall|i: int| 0 < i < stem.len() ==> #[trigger] stem[i] != '.') && stem[0] != '.' {
        lemma_split_append(dir, '/', stem);
        let ps = split_on(dir, '/').push(stem);
        assert(ps[ps.len() - 1] == stem);
        assert("."@[0] == '.' && ".."@[0] == '.');
        assert(file_name(ps, ps.len() as int) == Some(stem));
        lemma_no_dot(stem, stem.len() as int);
    }
}

/// A file is markdown where its extension says so, in capitals or not, and plain text otherwise.
pub proof fn law_the_extension_decides(path: Seq<char>)
    ensures
        extension(path) == "md"@ || extension(path) == "markdown"@ || extension(path) == "MD"@
            ==> format_for(path) is Markdown,
        extension(path).len() != 2 && extension(path).len() != 8 ==> format_for(path) is Plain,
        extension(path).len() == 2 && (extension(path)[0] != 'm' && extension(path)[0] != 'M')
            ==> format_for(path) is Plain,
{
    reveal_strlit("md");
    reveal_strlit("MD");
    reveal_strlit("markdown");
    assert("md"@.len() == 2 && "MD"@.len() == 2 && "markdown"@.len() == 8);
    assert("md"@[0] == 'm' && "md"@[1] == 'd' && "MD"@[0] == 'M' && "MD"@[1] == 'D');
    let e = extension(path);
    if e == "markdown"@ {
        assert(same_word(e, "markdown"@));
    }
    if e == "md"@ || e == "MD"@ {
        assert(lower('M') == 'm' && lower('D') == 'd');
        assert(same_word(e, "md"@));
    }
    if e.len() == 2 && e[0] != 'm' && e[0] != 'M' {
        assert(lower(e[0]) != 'm');
    }
}

} // verus!
