//! The notebook library on disk: which entries are notebooks, in what
//! order they are listed, and the release check of the desktop app.
use vstd::prelude::*;

use crate::text::{chars_equal, chars_of, ends_with, has_prefix, has_suffix, push_all, string_from_chars};

verus! {

broadcast use vstd::seq_lib::group_to_multiset_ensures;

/// Lexicographic order of texts by code point (the order of `String`).
pub open spec fn lex_le(a: Seq<char>, b: Seq<char>) -> bool
    decreases a.len(),
{
    if a.len() == 0 {
        true
    } else if b.len() == 0 {
        false
    } else if a[0] != b[0] {
        a[0] < b[0]
    } else {
        lex_le(a.drop_first(), b.drop_first())
    }
}

/// The texts are in ascending order.
pub open spec fn is_sorted(s: Seq<Seq<char>>) -> bool {
    forall|i: int, j: int| 0 <= i < j < s.len() ==> lex_le(#[trigger] s[i], #[trigger] s[j])
}

/// Law: any two texts are ordered one way or the other.
pub proof fn lemma_lex_total(a: Seq<char>, b: Seq<char>)
    ensures
        lex_le(a, b) || lex_le(b, a),
    decreases a.len(),
{
    if a.len() > 0 && b.len() > 0 && a[0] == b[0] {
        lemma_lex_total(a.drop_first(), b.drop_first());
    }
}

/// Law: the order is transitive.
pub proof fn lemma_lex_transitive(a: Seq<char>, b: Seq<char>, c: Seq<char>)
    requires
        lex_le(a, b),
        lex_le(b, c),
    ensures
        lex_le(a, c),
    decreases a.len(),
{
    if a.len() > 0 && b.len() > 0 && c.len() > 0 && a[0] == b[0] && b[0] == c[0] {
        lemma_lex_transitive(a.drop_first(), b.drop_first(), c.drop_first());
    }
}

/// Law: the order is antisymmetric.
pub proof fn lemma_lex_antisymmetric(a: Seq<char>, b: Seq<char>)
    requires
        lex_le(a, b),
        lex_le(b, a),
    ensures
        a == b,
    decreases a.len(),
{
    if a.len() == 0 || b.len() == 0 {
        assert(a.len() == 0 && b.len() == 0);
        assert(a =~= b);
    } else if a[0] == b[0] {
        lemma_lex_antisymmetric(a.drop_first(), b.drop_first());
        assert(a.drop_first().len() == b.drop_first().len());
        assert(a.len() == b.len());
        assert forall|i: int| 0 <= i < a.len() implies a[i] == b[i] by {
            if i > 0 {
                assert(a[i] == a.drop_first()[i - 1]);
                assert(b[i] == b.drop_first()[i - 1]);
            }
        }
        assert(a =~= b);
    }
}

fn lex_le_chars(a: &Vec<char>, b: &Vec<char>) -> (r: bool)
    ensures
        r == lex_le(a@, b@),
{
    let mut i: usize = 0;
    assert(a@.skip(0) =~= a@ && b@.skip(0) =~= b@);
    while i < a.len() && i < b.len() && a[i] == b[i]
        invariant
            i <= a@.len(),
            i <= b@.len(),
            lex_le(a@, b@) == lex_le(a@.skip(i as int), b@.skip(i as int)),
        decreases a@.len() - i,
    {
        proof {
            assert(a@.skip(i as int).drop_first() =~= a@.skip(i + 1));
            assert(b@.skip(i as int).drop_first() =~= b@.skip(i + 1));
        }
        i = i + 1;
    }
    proof {
        if i < a@.len() {
            assert(a@.skip(i as int)[0] == a@[i as int]);
        }
        if i < b@.len() {
            assert(b@.skip(i as int)[0] == b@[i as int]);
        }
    }
    if i == a.len() {
        true
    } else if i == b.len() {
        false
    } else {
        a[i] < b[i]
    }
}

/// Inserts `x` into the sorted `r` after every element not above it.
fn insert_sorted(r: &mut Vec<String>, x: String)
    requires
        is_sorted(old(r).deep_view()),
    ensures
        is_sorted(final(r).deep_view()),
        final(r).deep_view().to_multiset() == old(r).deep_view().to_multiset().insert(x@),
{
    let xc = chars_of(x.as_str());
    let ghost before = r.deep_view();
    let mut p: usize = 0;
    while p < r.len() && lex_le_chars(&chars_of(r[p].as_str()), &xc)
        invariant
            p <= r@.len(),
            before == r.deep_view(),
            is_sorted(before),
            xc@ == x@,
            forall|i: int| 0 <= i < p ==> lex_le(#[trigger] before[i], x@),
        decreases r@.len() - p,
    {
        p = p + 1;
    }
    proof {
        if p < before.len() {
            lemma_lex_total(before[p as int], x@);
        }
    }
    let ghost xv = x@;
    let ghost xs = x;
    let ghost old_r = r@;
    r.insert(p, x);
    proof {
        assert(r@ == old_r.insert(p as int, xs));
        assert(r.deep_view() =~= before.insert(p as int, xv));
        let after = r.deep_view();
        assert forall|i: int, j: int| 0 <= i < j < after.len() implies lex_le(#[trigger] after[i], #[trigger] after[j]) by {
            if j < p {
                assert(after[i] == before[i] && after[j] == before[j]);
            } else if j == p {
                assert(after[i] == before[i]);
            } else if i < p {
                assert(after[j] == before[j - 1]);
                assert(after[i] == before[i]);
                assert(lex_le(xv, before[p as int]));
                if p < j - 1 {
                    lemma_lex_transitive(xv, before[p as int], before[j - 1]);
                }
                lemma_lex_transitive(before[i], xv, before[j - 1]);
            } else if i == p {
                assert(after[j] == before[j - 1]);
                assert(lex_le(xv, before[p as int]));
                if p < j - 1 {
                    lemma_lex_transitive(xv, before[p as int], before[j - 1]);
                }
            } else {
                assert(after[i] == before[i - 1] && after[j] == before[j - 1]);
            }
        }
    }
}

/// `names` in ascending order.
fn sort_names(names: Vec<String>) -> (r: Vec<String>)
    ensures
        is_sorted(r.deep_view()),
        r.deep_view().to_multiset() == names.deep_view().to_multiset(),
{
    let ghost all = names.deep_view();
    let mut rest = names;
    let mut r: Vec<String> = Vec::new();
    proof {
        assert(r.deep_view() =~= Seq::<Seq<char>>::empty());
        assert(rest.deep_view() =~= all);
    }
    while rest.len() > 0
        invariant
            is_sorted(r.deep_view()),
            r.deep_view().to_multiset().add(rest.deep_view().to_multiset()) == all.to_multiset(),
        decreases rest@.len(),
    {
        let ghost rv = rest.deep_view();
        let x = rest.pop().unwrap();
        proof {
            assert(rv =~= rest.deep_view().push(x@));
        }
        insert_sorted(&mut r, x);
        proof {
            assert(r.deep_view().to_multiset().add(rest.deep_view().to_multiset()) =~= all.to_multiset());
        }
    }
    proof {
        assert(rest.deep_view() =~= Seq::<Seq<char>>::empty());
        assert(r.deep_view().to_multiset() =~= all.to_multiset());
    }
    r
}


/// The name of a Markdown file.
pub open spec fn is_markdown_name(name: Seq<char>) -> bool {
    has_suffix(name, ".md"@)
}

/// A notebook file of `entries/`: a Markdown file other than the schema
/// and system documents.
pub open spec fn is_notebook_file(name: Seq<char>) -> bool {
    is_markdown_name(name) && name != "SCHEMA.md"@ && name != "SYSTEM.md"@
}

/// Law: a Markdown file is one whose name ends in ".md"; a notebook file of
/// `entries/` is such a file other than "SCHEMA.md" and "SYSTEM.md".
pub proof fn lemma_notebook_file_names(name: Seq<char>)
    ensures
        is_markdown_name(name) == (name.len() >= 3 && name.subrange(name.len() - 3, name.len() as int) == seq![
            '.',
            'm',
            'd',
        ]),
        is_notebook_file(name) == (is_markdown_name(name) && name != seq!['S', 'C', 'H', 'E', 'M', 'A', '.', 'm', 'd']
            && name != seq!['S', 'Y', 'S', 'T', 'E', 'M', '.', 'm', 'd']),
{
    reveal_strlit(".md");
    reveal_strlit("SCHEMA.md");
    reveal_strlit("SYSTEM.md");
    assert(".md"@ =~= seq!['.', 'm', 'd']);
    assert("SCHEMA.md"@ =~= seq!['S', 'C', 'H', 'E', 'M', 'A', '.', 'm', 'd']);
    assert("SYSTEM.md"@ =~= seq!['S', 'Y', 'S', 'T', 'E', 'M', '.', 'm', 'd']);
    if name.len() >= 3 {
        assert(name.skip(name.len() - 3) =~= name.subrange(name.len() - 3, name.len() as int));
    }
}

/// The names that are notebook files, in order.
pub open spec fn notebook_files(names: Seq<Seq<char>>) -> Seq<Seq<char>>
    decreases names.len(),
{
    if names.len() == 0 {
        Seq::empty()
    } else {
        let rest = notebook_files(names.drop_last());
        if is_notebook_file(names.last()) {
            rest.push(names.last())
        } else {
            rest
        }
    }
}

/// The names that are Markdown files, in order.
pub open spec fn markdown_files(names: Seq<Seq<char>>) -> Seq<Seq<char>>
    decreases names.len(),
{
    if names.len() == 0 {
        Seq::empty()
    } else {
        let rest = markdown_files(names.drop_last());
        if is_markdown_name(names.last()) {
            rest.push(names.last())
        } else {
            rest
        }
    }
}

fn is_markdown(name: &String) -> (b: bool)
    ensures
        b == is_markdown_name(name@),
{
    ends_with(&chars_of(name.as_str()), &chars_of(".md"))
}

fn is_notebook(name: &String) -> (b: bool)
    ensures
        b == is_notebook_file(name@),
{
    let chars = chars_of(name.as_str());
    is_markdown(name) && !chars_equal(&chars, &chars_of("SCHEMA.md")) && !chars_equal(&chars, &chars_of("SYSTEM.md"))
}

/// The notebook files among the names of `entries/`, sorted.
pub fn select_notebooks(names: Vec<String>) -> (r: Vec<String>)
    ensures
        is_sorted(r.deep_view()),
        r.deep_view().to_multiset() == notebook_files(names.deep_view()).to_multiset(),
{
    let ghost all = names.deep_view();
    let mut kept: Vec<String> = Vec::new();
    let mut i: usize = 0;
    while i < names.len()
        invariant
            i <= names@.len(),
            all == names.deep_view(),
            kept.deep_view() == notebook_files(all.take(i as int)),
        decreases names@.len() - i,
    {
        proof {
            assert(all.take(i + 1).drop_last() =~= all.take(i as int));
            assert(all.take(i + 1).last() == names@[i as int]@);
        }
        if is_notebook(&names[i]) {
            let name = names[i].clone();
            let ghost before = kept.deep_view();
            kept.push(name);
            proof {
                assert(kept.deep_view() =~= before.push(names@[i as int]@));
            }
        }
        i = i + 1;
    }
    proof {
        assert(all.take(names@.len() as int) =~= all);
    }
    sort_names(kept)
}

/// The Markdown files among the names of a notebook directory, sorted.
pub fn select_dir_entries(names: Vec<String>) -> (r: Vec<String>)
    ensures
        is_sorted(r.deep_view()),
        r.deep_view().to_multiset() == markdown_files(names.deep_view()).to_multiset(),
{
    let ghost all = names.deep_view();
    let mut kept: Vec<String> = Vec::new();
    let mut i: usize = 0;
    while i < names.len()
        invariant
            i <= names@.len(),
            all == names.deep_view(),
            kept.deep_view() == markdown_files(all.take(i as int)),
        decreases names@.len() - i,
    {
        proof {
            assert(all.take(i + 1).drop_last() =~= all.take(i as int));
            assert(all.take(i + 1).last() == names@[i as int]@);
        }
        if is_markdown(&names[i]) {
            let name = names[i].clone();
            let ghost before = kept.deep_view();
            kept.push(name);
            proof {
                assert(kept.deep_view() =~= before.push(names@[i as int]@));
            }
        }
        i = i + 1;
    }
    proof {
        assert(all.take(names@.len() as int) =~= all);
    }
    sort_names(kept)
}

/// A subdirectory of `entries/` and the names of the files in it (`None`
/// when it could not be read).
pub struct SubdirListing {
    /// Directory name.
    pub name: String,
    /// Names of its entries.
    pub files: Option<Vec<String>>,
}

/// A directory notebook: not hidden, readable, and holding at least one
/// Markdown file.
pub open spec fn is_notebook_dir(name: Seq<char>, files: Option<Seq<Seq<char>>>) -> bool {
    &&& !has_prefix(name, seq!['.'])
    &&& files matches Some(fs) && exists|i: int| 0 <= i < fs.len() && is_markdown_name(#[trigger] fs[i])
}

/// Law: a readable subdirectory is a directory notebook exactly when its
/// name does not start with '.' and some file in it, at any position of
/// the listing, has a name ending in ".md"; an unreadable one never is.
pub proof fn lemma_notebook_dir_any_file(name: Seq<char>, files: Option<Seq<Seq<char>>>)
    ensures
        files is None ==> !is_notebook_dir(name, files),
        files matches Some(fs) ==> (is_notebook_dir(name, files) == (!(name.len() > 0 && name[0] == '.')
            && exists|i: int|
            0 <= i < fs.len() && fs[i].len() >= 3 && #[trigger] fs[i].subrange(fs[i].len() - 3, fs[i].len() as int)
                == seq!['.', 'm', 'd'])),
{
    reveal_strlit(".md");
    assert(".md"@ =~= seq!['.', 'm', 'd']);
    let hidden = name.len() > 0 && name[0] == '.';
    if name.len() > 0 {
        assert(name.take(1) =~= seq![name[0]]);
        if name[0] == '.' {
            assert(name.take(1) =~= seq!['.']);
        } else {
            assert(name.take(1)[0] != seq!['.'][0]);
        }
    }
    assert(has_prefix(name, seq!['.']) == hidden);
    if let Some(fs) = files {
        let e1 = exists|i: int| 0 <= i < fs.len() && is_markdown_name(#[trigger] fs[i]);
        let e2 = exists|i: int|
            0 <= i < fs.len() && fs[i].len() >= 3 && #[trigger] fs[i].subrange(fs[i].len() - 3, fs[i].len() as int)
                == seq!['.', 'm', 'd'];
        if e1 {
            let i = choose|i: int| 0 <= i < fs.len() && is_markdown_name(#[trigger] fs[i]);
            assert(fs[i].skip(fs[i].len() - 3) =~= fs[i].subrange(fs[i].len() - 3, fs[i].len() as int));
            assert(fs[i].subrange(fs[i].len() - 3, fs[i].len() as int) == seq!['.', 'm', 'd']);
            assert(e2);
        }
        if e2 {
            let i = choose|i: int|
                0 <= i < fs.len() && fs[i].len() >= 3 && #[trigger] fs[i].subrange(fs[i].len() - 3, fs[i].len() as int)
                    == seq!['.', 'm', 'd'];
            assert(fs[i].skip(fs[i].len() - 3) =~= fs[i].subrange(fs[i].len() - 3, fs[i].len() as int));
            assert(is_markdown_name(fs[i]));
            assert(e1);
        }
        assert(e1 == e2);
        assert(is_notebook_dir(name, files) == (!hidden && e1));
    }
}

/// Law: whether a directory is a notebook does not depend on the order in
/// which its files are listed.
pub proof fn lemma_notebook_dir_order(name: Seq<char>, fs1: Seq<Seq<char>>, fs2: Seq<Seq<char>>)
    requires
        fs1.to_multiset() == fs2.to_multiset(),
    ensures
        is_notebook_dir(name, Some(fs1)) == is_notebook_dir(name, Some(fs2)),
{
    broadcast use vstd::seq_lib::group_to_multiset_ensures;
    let e1 = exists|i: int| 0 <= i < fs1.len() && is_markdown_name(#[trigger] fs1[i]);
    let e2 = exists|i: int| 0 <= i < fs2.len() && is_markdown_name(#[trigger] fs2[i]);
    if e1 {
        let i = choose|i: int| 0 <= i < fs1.len() && is_markdown_name(#[trigger] fs1[i]);
        assert(fs1.contains(fs1[i]));
        assert(fs1.to_multiset().count(fs1[i]) > 0);
        assert(fs2.to_multiset().count(fs1[i]) > 0);
        assert(fs2.contains(fs1[i]));
        let j = choose|j: int| 0 <= j < fs2.len() && fs2[j] == fs1[i];
        assert(is_markdown_name(fs2[j]));
        assert(e2);
    }
    if e2 {
        let i = choose|i: int| 0 <= i < fs2.len() && is_markdown_name(#[trigger] fs2[i]);
        assert(fs2.contains(fs2[i]));
        assert(fs2.to_multiset().count(fs2[i]) > 0);
        assert(fs1.to_multiset().count(fs2[i]) > 0);
        assert(fs1.contains(fs2[i]));
        let j = choose|j: int| 0 <= j < fs1.len() && fs1[j] == fs2[i];
        assert(is_markdown_name(fs1[j]));
        assert(e1);
    }
    assert(e1 == e2);
    assert(is_notebook_dir(name, Some(fs1)) == (!has_prefix(name, seq!['.']) && e1));
    assert(is_notebook_dir(name, Some(fs2)) == (!has_prefix(name, seq!['.']) && e2));
}

/// The names of the directory notebooks among `dirs`, in order.
pub open spec fn notebook_dirs(dirs: Seq<SubdirListing>) -> Seq<Seq<char>>
    decreases dirs.len(),
{
    if dirs.len() == 0 {
        Seq::empty()
    } else {
        let rest = notebook_dirs(dirs.drop_last());
        let d = dirs.last();
        if is_notebook_dir(d.name@, d.files.deep_view()) {
            rest.push(d.name@)
        } else {
            rest
        }
    }
}

fn has_markdown_file(files: &Vec<String>) -> (b: bool)
    ensures
        b == exists|i: int| 0 <= i < files.deep_view().len() && is_markdown_name(#[trigger] files.deep_view()[i]),
{
    let mut i: usize = 0;
    while i < files.len()
        invariant
            i <= files@.len(),
            forall|j: int| 0 <= j < i ==> !is_markdown_name(#[trigger] files.deep_view()[j]),
        decreases files@.len() - i,
    {
        if is_markdown(&files[i]) {
            proof {
                assert(is_markdown_name(files.deep_view()[i as int]));
            }
            return true;
        }
        i = i + 1;
    }
    false
}

/// The directory notebooks among the subdirectories of `entries/`, sorted.
pub fn select_notebook_dirs(dirs: Vec<SubdirListing>) -> (r: Vec<String>)
    ensures
        is_sorted(r.deep_view()),
        r.deep_view().to_multiset() == notebook_dirs(dirs@).to_multiset(),
{
    let mut kept: Vec<String> = Vec::new();
    let mut i: usize = 0;
    while i < dirs.len()
        invariant
            i <= dirs@.len(),
            kept.deep_view() == notebook_dirs(dirs@.take(i as int)),
        decreases dirs@.len() - i,
    {
        proof {
            assert(dirs@.take(i + 1).drop_last() =~= dirs@.take(i as int));
            assert(dirs@.take(i + 1).last() == dirs@[i as int]);
        }
        let d = &dirs[i];
        let dot: Vec<char> = vec!['.'];
        let hidden = crate::text::starts_with(&chars_of(d.name.as_str()), &dot);
        let keep = !hidden && match &d.files {
            Some(fs) => has_markdown_file(fs),
            None => false,
        };
        proof {
            assert(dot@ =~= seq!['.']);
            assert(keep == is_notebook_dir(d.name@, d.files.deep_view()));
        }
        if keep {
            let name = d.name.clone();
            let ghost before = kept.deep_view();
            kept.push(name);
            proof {
                assert(kept.deep_view() =~= before.push(d.name@));
            }
        }
        i = i + 1;
    }
    proof {
        assert(dirs@.take(dirs@.len() as int) =~= dirs@);
    }
    sort_names(kept)
}


/// The pieces of `s` between '.' separators (`str::split('.')`); an empty
/// text is one empty piece.
pub open spec fn split_dots(s: Seq<char>) -> Seq<Seq<char>>
    decreases s.len(),
{
    if s.len() == 0 {
        seq![Seq::empty()]
    } else {
        let pieces = split_dots(s.drop_last());
        if s.last() == '.' {
            pieces.push(Seq::empty())
        } else {
            pieces.update(pieces.len() - 1, pieces.last().push(s.last()))
        }
    }
}

/// An ASCII decimal digit.
pub open spec fn is_digit(c: char) -> bool {
    '0' <= c <= '9'
}

/// Value of a string of decimal digits.
pub open spec fn digits_value(s: Seq<char>) -> int
    decreases s.len(),
{
    if s.len() == 0 {
        0
    } else {
        digits_value(s.drop_last()) * 10 + (s.last() as int - 48)
    }
}

/// All characters of `d` are decimal digits.
pub open spec fn all_digits(d: Seq<char>) -> bool {
    forall|i: int| 0 <= i < d.len() ==> is_digit(#[trigger] d[i])
}

/// A character that starts a pre-release ('-') or build ('+') suffix.
pub open spec fn is_suffix_mark(c: char) -> bool {
    c == '-' || c == '+'
}

/// How many characters of `d` come before its first '-' or '+'.
pub open spec fn core_len(d: Seq<char>) -> nat
    decreases d.len(),
{
    if d.len() > 0 && !is_suffix_mark(d[0]) {
        1 + core_len(d.drop_first())
    } else {
        0
    }
}

/// The text after an optional leading '+' (which `str::parse` accepts).
pub open spec fn unsigned_part(s: Seq<char>) -> Seq<char> {
    if s.len() > 0 && s[0] == '+' {
        s.drop_first()
    } else {
        s
    }
}

/// The number of a version piece: after an optional leading '+', the text
/// before any pre-release or build suffix ("1-beta", "0+build") must be
/// decimal digits, at least one, with a value that fits in 32 bits, as
/// `str::parse::<u32>` reads it; `None` otherwise ("2x", "beta", "").
pub open spec fn version_number(s: Seq<char>) -> Option<u32> {
    let d = unsigned_part(s);
    let c = d.take(core_len(d) as int);
    if c.len() > 0 && all_digits(c) && digits_value(c) <= u32::MAX {
        Some(digits_value(c) as u32)
    } else {
        None
    }
}

/// The numbers of the pieces, in order; pieces without one are left out.
pub open spec fn parsed_numbers(pieces: Seq<Seq<char>>) -> Seq<u32>
    decreases pieces.len(),
{
    if pieces.len() == 0 {
        Seq::empty()
    } else {
        let rest = parsed_numbers(pieces.drop_last());
        match version_number(pieces.last()) {
            Some(n) => rest.push(n),
            None => rest,
        }
    }
}

/// The numeric components of a version string.
pub open spec fn version_components(v: Seq<char>) -> Seq<u32> {
    parsed_numbers(split_dots(v))
}

/// Component `i` of a version, 0 past its end.
pub open spec fn component(v: Seq<u32>, i: int) -> u32 {
    if 0 <= i < v.len() {
        v[i]
    } else {
        0
    }
}

/// The longer of two lengths.
pub open spec fn longer(a: nat, b: nat) -> nat {
    if a > b {
        a
    } else {
        b
    }
}

/// Version `a` is above version `b` when compared from component `i` on,
/// missing components counting as 0.
pub open spec fn newer_from(a: Seq<u32>, b: Seq<u32>, i: nat) -> bool
    decreases longer(a.len(), b.len()) - i,
{
    if i >= a.len() && i >= b.len() {
        false
    } else if component(a, i as int) > component(b, i as int) {
        true
    } else if component(a, i as int) < component(b, i as int) {
        false
    } else {
        newer_from(a, b, i + 1)
    }
}

/// Version string `a` is newer than version string `b`.
pub open spec fn version_newer(a: Seq<char>, b: Seq<char>) -> bool {
    newer_from(version_components(a), version_components(b), 0)
}

proof fn lemma_digits_grow(d: Seq<char>, i: int)
    requires
        0 <= i <= d.len(),
        all_digits(d),
    ensures
        0 <= digits_value(d.take(i)) <= digits_value(d),
    decreases d.len() - i,
{
    if i < d.len() {
        lemma_digits_grow(d, i + 1);
        assert(d.take(i + 1).drop_last() =~= d.take(i));
        assert(d.take(i + 1).last() == d[i]);
    } else {
        assert(d.take(i) =~= d);
        lemma_digits_nonneg(d);
    }
}

proof fn lemma_digits_nonneg(d: Seq<char>)
    requires
        all_digits(d),
    ensures
        digits_value(d) >= 0,
    decreases d.len(),
{
    if d.len() > 0 {
        lemma_digits_nonneg(d.drop_last());
        assert(is_digit(d[d.len() - 1]));
    }
}

/// The core of `d` is as long as `core_len` says: no suffix mark in it,
/// and followed by the end or a suffix mark.
proof fn lemma_core_len(d: Seq<char>)
    ensures
        core_len(d) <= d.len(),
        forall|j: int| 0 <= j < core_len(d) ==> !is_suffix_mark(#[trigger] d[j]),
        core_len(d) < d.len() ==> is_suffix_mark(d[core_len(d) as int]),
    decreases d.len(),
{
    if d.len() > 0 && !is_suffix_mark(d[0]) {
        let t = d.drop_first();
        lemma_core_len(t);
        assert forall|j: int| 0 <= j < core_len(d) implies !is_suffix_mark(#[trigger] d[j]) by {
            if j > 0 {
                assert(d[j] == t[j - 1]);
            }
        }
        if core_len(d) < d.len() {
            assert(d[core_len(d) as int] == t[core_len(t) as int]);
        }
    }
}

fn parse_number(piece: &Vec<char>) -> (r: Option<u32>)
    ensures
        r == version_number(piece@),
{
    let start: usize = if piece.len() > 0 && piece[0] == '+' { 1 } else { 0 };
    let ghost d = unsigned_part(piece@);
    proof {
        assert(d =~= piece@.skip(start as int));
        lemma_core_len(d);
        assert(d.take(0) =~= Seq::<char>::empty());
    }
    let ghost k = core_len(d) as int;
    let ghost core = d.take(k);
    let mut value: u64 = 0;
    let mut i: usize = start;
    while i < piece.len() && piece[i] != '-' && piece[i] != '+'
        invariant
            start <= i <= piece@.len(),
            d == piece@.skip(start as int),
            d == unsigned_part(piece@),
            k == core_len(d),
            k <= d.len(),
            core == d.take(k),
            forall|j: int| 0 <= j < k ==> !is_suffix_mark(#[trigger] d[j]),
            k < d.len() ==> is_suffix_mark(d[k]),
            i - start <= k,
            all_digits(d.take(i - start)),
            value == digits_value(d.take(i - start)),
            value <= u32::MAX,
        decreases piece@.len() - i,
    {
        let c = piece[i];
        let ghost j = i - start;
        proof {
            assert(d[j] == c);
            if j == k {
                assert(is_suffix_mark(d[k]));
            }
            assert(core[j] == c);
        }
        if !('0' <= c && c <= '9') {
            proof {
                assert(!is_digit(core[j]));
                assert(!all_digits(core));
            }
            return None;
        }
        proof {
            assert(d.take(j + 1).drop_last() =~= d.take(j));
            assert(d.take(j + 1).last() == c);
            assert forall|x: int| 0 <= x < j + 1 implies is_digit(#[trigger] d.take(j + 1)[x]) by {
                if x < j {
                    assert(d.take(j + 1)[x] == d.take(j)[x]);
                }
            }
        }
        value = value * 10 + (c as u64 - 48);
        i = i + 1;
        if value > 4294967295 {
            proof {
                if all_digits(core) {
                    lemma_digits_grow(core, i - start);
                    assert(core.take(i - start) =~= d.take(i - start));
                }
            }
            return None;
        }
    }
    proof {
        if i - start < k {
            assert(d[i - start] == piece@[i as int]);
            assert(!is_suffix_mark(d[i - start]));
        }
        assert(i - start == k);
        assert(core =~= d.take(i - start));
    }
    if i == start {
        None
    } else {
        Some(value as u32)
    }
}

fn version_numbers(v: &str) -> (r: Vec<u32>)
    ensures
        r@ == version_components(v@),
{
    let chars = chars_of(v);
    let mut numbers: Vec<u32> = Vec::new();
    let mut piece: Vec<char> = Vec::new();
    let ghost mut done: Seq<Seq<char>> = Seq::empty();
    let mut i: usize = 0;
    proof {
        assert(chars@.take(0) =~= Seq::<char>::empty());
        assert(split_dots(chars@.take(0)) =~= done.push(piece@));
    }
    while i < chars.len()
        invariant
            i <= chars@.len(),
            chars@ == v@,
            split_dots(chars@.take(i as int)) == done.push(piece@),
            numbers@ == parsed_numbers(done),
        decreases chars@.len() - i,
    {
        let c = chars[i];
        proof {
            assert(chars@.take(i + 1).drop_last() =~= chars@.take(i as int));
            assert(chars@.take(i + 1).last() == c);
        }
        if c == '.' {
            match parse_number(&piece) {
                Some(n) => numbers.push(n),
                None => {},
            }
            proof {
                assert(done.push(piece@).drop_last() =~= done);
                done = done.push(piece@);
            }
            piece = Vec::new();
            proof {
                assert(split_dots(chars@.take(i + 1)) =~= done.push(piece@));
            }
        } else {
            let ghost old_piece = piece@;
            piece.push(c);
            proof {
                assert(split_dots(chars@.take(i + 1)) =~= done.push(piece@));
            }
        }
        i = i + 1;
    }
    match parse_number(&piece) {
        Some(n) => numbers.push(n),
        None => {},
    }
    proof {
        assert(chars@.take(chars@.len() as int) =~= chars@);
        assert(done.push(piece@).drop_last() =~= done);
    }
    numbers
}

/// Compares two version strings component by component ("1.10" is above
/// "1.9"; missing components count as 0; a piece counts by its number
/// before any pre-release or build suffix, so "1.0.1-beta" is above
/// "1.0.0"; pieces that are not such numbers are left out): true when `a`
/// is newer than `b`.
pub fn version_gt(a: &str, b: &str) -> (r: bool)
    ensures
        r == version_newer(a@, b@),
{
    let va = version_numbers(a);
    let vb = version_numbers(b);
    let n = if va.len() > vb.len() { va.len() } else { vb.len() };
    let mut i: usize = 0;
    while i < n
        invariant
            i <= n,
            n == longer(va@.len(), vb@.len()),
            version_newer(a@, b@) == newer_from(va@, vb@, i as nat),
        decreases n - i,
    {
        let x = if i < va.len() { va[i] } else { 0 };
        let y = if i < vb.len() { vb[i] } else { 0 };
        if x > y {
            return true;
        }
        if x < y {
            return false;
        }
        i = i + 1;
    }
    false
}

/// Law: no version is newer than itself.
pub proof fn lemma_version_irreflexive(a: Seq<u32>, i: nat)
    ensures
        !newer_from(a, a, i),
    decreases longer(a.len(), a.len()) - i,
{
    if i < a.len() {
        lemma_version_irreflexive(a, i + 1);
    }
}

/// Law: of two versions, at most one is newer than the other.
pub proof fn lemma_version_asymmetric(a: Seq<u32>, b: Seq<u32>, i: nat)
    ensures
        !(newer_from(a, b, i) && newer_from(b, a, i)),
    decreases longer(a.len(), b.len()) - i,
{
    if i < a.len() || i < b.len() {
        lemma_version_asymmetric(a, b, i + 1);
    }
}

/// Law: "newer than" is transitive.
pub proof fn lemma_version_transitive(a: Seq<u32>, b: Seq<u32>, c: Seq<u32>, i: nat)
    requires
        newer_from(a, b, i),
        newer_from(b, c, i),
    ensures
        newer_from(a, c, i),
    decreases longer(longer(a.len(), b.len()), c.len()) - i,
{
    if component(a, i as int) == component(b, i as int) && component(b, i as int) == component(c, i as int) {
        lemma_version_transitive(a, b, c, i + 1);
    }
}

/// Law: version strings compare by the rules above, so no version string
/// is newer than itself, and of two version strings at most one is newer.
pub proof fn lemma_version_strings(a: Seq<char>, b: Seq<char>)
    ensures
        !version_newer(a, a),
        !(version_newer(a, b) && version_newer(b, a)),
{
    lemma_version_irreflexive(version_components(a), 0);
    lemma_version_asymmetric(version_components(a), version_components(b), 0);
}

} // verus!
