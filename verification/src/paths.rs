//! Paths as text, with `/` between the components.

use crate::text;
use vstd::prelude::*;

verus! {

/// `component` below `base`; a component that begins at the root stands alone.
pub open spec fn joined(base: Seq<char>, component: Seq<char>) -> Seq<char> {
    if component.len() > 0 && component[0] == '/' {
        component
    } else if base.len() == 0 || base.last() == '/' {
        base + component
    } else {
        base.push('/') + component
    }
}

/// `component` below `base`.
pub fn join(base: &str, component: &str) -> (res: String)
    ensures
        res@ == joined(base@, component@),
{
    let b = text::to_chars(base);
    let c = text::to_chars(component);
    if c.len() > 0 && c[0] == '/' {
        component.to_owned()
    } else if b.len() == 0 || b[b.len() - 1] == '/' {
        text::cat(base, component)
    } else {
        let mut res = base.to_owned();
        res.push('/');
        res.append(component);
        res
    }
}

/// Whether a piece between two slashes names something.
pub open spec fn is_component(piece: Seq<char>) -> bool {
    piece.len() > 0 && piece != "."@
}

/// The last of the first `n` pieces that names something.
pub open spec fn last_component(pieces: Seq<Seq<char>>, n: int) -> Option<Seq<char>>
    decreases n,
{
    if n <= 0 || n > pieces.len() {
        None
    } else if is_component(pieces[n - 1]) {
        Some(pieces[n - 1])
    } else {
        last_component(pieces, n - 1)
    }
}

/// The last component of a path, unless it is the parent directory.
pub open spec fn file_name(path: Seq<char>) -> Option<Seq<char>> {
    let pieces = text::split(path, '/');
    match last_component(pieces, pieces.len() as int) {
        Some(name) => if name == ".."@ {
            None
        } else {
            Some(name)
        },
        None => None,
    }
}

/// What follows the last dot of a file name, where the dot is not its first
/// character.
pub open spec fn name_extension(name: Seq<char>) -> Option<Seq<char>> {
    match text::rfind(name, "."@) {
        Some(k) => if k > 0 {
            Some(name.skip(k + 1))
        } else {
            None
        },
        None => None,
    }
}

/// The extension of the file that a path names.
pub open spec fn extension(path: Seq<char>) -> Option<Seq<char>> {
    match file_name(path) {
        Some(name) => name_extension(name),
        None => None,
    }
}

/// The extension, or the empty text.
pub open spec fn extension_or_empty(path: Seq<char>) -> Seq<char> {
    match extension(path) {
        Some(e) => e,
        None => Seq::empty(),
    }
}

/// The last component of a path, unless it is the parent directory.
pub fn file_name_of(path: &str) -> (res: Option<String>)
    ensures
        text::opt(res) == file_name(path@),
{
    let pieces = text::split_on(path, '/');
    let mut n: usize = pieces.len();
    let ghost views = text::strs(pieces@);
    while n > 0
        invariant
            n <= pieces@.len(),
            views == text::strs(pieces@),
            views == text::split(path@, '/'),
            last_component(views, views.len() as int) == last_component(views, n as int),
        decreases n,
    {
        let piece = pieces[n - 1].clone();
        assert(views[n - 1] == piece@);
        if !piece.as_str().is_empty() && !text::same(piece.as_str(), ".") {
            if text::same(piece.as_str(), "..") {
                return None;
            }
            return Some(piece);
        }
        n -= 1;
    }
    None
}

/// The extension of the file that a path names, or the empty text.
pub fn extension_of(path: &str) -> (res: String)
    ensures
        res@ == extension_or_empty(path@),
{
    match file_name_of(path) {
        Some(name) => {
            let v = text::to_chars(name.as_str());
            proof {
                reveal_strlit(".");
            }
            match text::last_position(&v, ".") {
                Some(k) => if k > 0 {
                    let res = text::from_range(&v, k + 1, v.len());
                    assert(v@.subrange(k + 1, v@.len() as int) =~= name@.skip(k + 1));
                    res
                } else {
                    String::new()
                },
                None => String::new(),
            }
        },
        None => String::new(),
    }
}

// ---------------------------------------------------------------------------
// What holds of paths
// ---------------------------------------------------------------------------

/// What begins at the root stands alone; else the base is kept whole, in front, with
/// just one separator where it did not end with one.
pub proof fn law_joined(base: Seq<char>, component: Seq<char>)
    ensures
        component.len() > 0 && component[0] == '/' ==> joined(base, component) == component,
        !(component.len() > 0 && component[0] == '/') ==> {
            &&& base.is_prefix_of(joined(base, component))
            &&& component.is_suffix_of(joined(base, component))
            &&& joined(base, component).len() == base.len() + component.len() + if base.len() == 0
                || base.last() == '/' {
                0int
            } else {
                1
            }
            &&& base.len() > 0 ==> joined(base, component)[joined(base, component).len()
                - component.len() - 1] == '/'
        },
{
    let whole = joined(base, component);
    if !(component.len() > 0 && component[0] == '/') {
        assert(whole.subrange(0, base.len() as int) =~= base);
        assert(whole.subrange(whole.len() - component.len(), whole.len() as int) =~= component);
    }
}

/// The name of a path is the last of its pieces that is neither empty nor a single dot;
/// two dots are no name.
pub proof fn law_file_name(pieces: Seq<Seq<char>>, k: int)
    requires
        pieces.len() > 0,
        forall|i: int| 0 <= i < pieces.len() ==> !(#[trigger] pieces[i]).contains('/'),
        -1 <= k < pieces.len(),
        k >= 0 ==> pieces[k].len() > 0 && pieces[k] != seq!['.'],
        forall|i: int|
            k < i < pieces.len() ==> (#[trigger] pieces[i]).len() == 0 || pieces[i] == seq!['.'],
    ensures
        file_name(text::join(pieces, seq!['/'])) == if k >= 0 && pieces[k] != seq!['.', '.'] {
            Some(pieces[k])
        } else {
            None
        },
{
    reveal_strlit(".");
    reveal_strlit("..");
    assert("."@ =~= seq!['.'] && ".."@ =~= seq!['.', '.']);
    text::law_join_then_split(pieces, '/');
    lemma_last_component(pieces, k, pieces.len() as int);
}

proof fn lemma_last_component(pieces: Seq<Seq<char>>, k: int, n: int)
    requires
        -1 <= k < n <= pieces.len(),
        k >= 0 ==> is_component(pieces[k]),
        forall|i: int| k < i < n ==> !is_component(#[trigger] pieces[i]),
    ensures
        last_component(pieces, n) == if k >= 0 {
            Some(pieces[k])
        } else {
            None
        },
    decreases n,
{
    if k < n - 1 {
        assert(!is_component(pieces[n - 1]));
        if n - 1 > 0 {
            lemma_last_component(pieces, k, n - 1);
        }
    }
}

/// The extension of a name is what follows its last dot, where something stands before
/// that dot; a name without a dot, or with none but at its front, has none.
pub proof fn law_extension(stem: Seq<char>, ext: Seq<char>)
    requires
        !ext.contains('.'),
    ensures
        name_extension(stem + seq!['.'] + ext) == if stem.len() > 0 {
            Some(ext)
        } else {
            None
        },
        name_extension(ext) is None,
{
    lemma_without_dot(ext);
    lemma_last_dot(stem, ext);
}

proof fn lemma_without_dot(ext: Seq<char>)
    requires
        !ext.contains('.'),
    ensures
        text::rfind(ext, "."@) is None,
{
    reveal_strlit(".");
    text::law_find(ext, "."@);
    match text::rfind(ext, "."@) {
        Some(k) => {
            assert(ext.subrange(k, k + 1)[0] == ext[k]);
            assert(ext[k] == '.');
        },
        None => {},
    }
}

proof fn lemma_last_dot(stem: Seq<char>, ext: Seq<char>)
    requires
        !ext.contains('.'),
    ensures
        text::rfind(stem + seq!['.'] + ext, "."@) == Some(stem.len() as int),
        (stem + seq!['.'] + ext).skip(stem.len() as int + 1) == ext,
{
    reveal_strlit(".");
    let name = stem + seq!['.'] + ext;
    let n = stem.len() as int;
    text::law_find(name, "."@);
    assert(name.subrange(n, n + 1) =~= "."@);
    match text::rfind(name, "."@) {
        Some(k) => {
            assert(name.subrange(k, k + 1)[0] == name[k]);
            if k > n {
                assert(ext[k - n - 1] == name[k]);
                assert(ext.contains('.'));
            }
        },
        None => {},
    }
    assert(name.skip(n + 1) =~= ext);
}

} // verus!
