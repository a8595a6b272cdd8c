//! Unix paths as text.

use vstd::prelude::*;

use crate::text;
use crate::text::{emit, same, split_on, Text};

verus! {

/// Whether a path starts at the root directory.
pub open spec fn is_absolute(path: Text) -> bool {
    path.len() > 0 && path[0] == '/'
}

/// A path below a directory: the path itself when it is absolute, otherwise
/// the two with one separator between them.
pub open spec fn under(dir: Text, path: Text) -> Text {
    if is_absolute(path) {
        path
    } else if dir.len() == 0 || dir.last() == '/' {
        dir + path
    } else {
        dir + "/"@ + path
    }
}

/// A path below a directory.
pub fn below(dir: &str, path: &str) -> (out: String)
    ensures
        out@ == under(dir@, path@),
{
    if path.unicode_len() > 0 && path.get_char(0) == '/' {
        return path.to_owned();
    }
    let n: usize = dir.unicode_len();
    if n == 0 || dir.get_char(n - 1) == '/' {
        dir.to_owned().concat(path)
    } else {
        dir.to_owned().concat("/").concat(path)
    }
}

/// Whether a piece between two separators names something.
pub open spec fn is_name(piece: Text) -> bool {
    piece.len() > 0 && piece != "."@
}

/// The names along a path: its pieces without the empty ones and the single
/// dots.
pub open spec fn names(path: Text) -> Seq<Text> {
    kept_names(text::split(path, '/'))
}

/// The pieces of a list that name something.
pub open spec fn kept_names(pieces: Seq<Text>) -> Seq<Text>
    decreases pieces.len(),
{
    if pieces.len() == 0 {
        Seq::empty()
    } else if is_name(pieces.last()) {
        kept_names(pieces.drop_last()).push(pieces.last())
    } else {
        kept_names(pieces.drop_last())
    }
}

/// The names along a path.
pub fn names_of(path: &str) -> (out: Vec<String>)
    ensures
        out.deep_view() == names(path@),
{
    let pieces = split_on(path, '/');
    let ghost all = pieces.deep_view();
    let mut out: Vec<String> = Vec::new();
    let mut i: usize = 0;
    assert(out.deep_view() == kept_names(all.take(0)));
    while i < pieces.len()
        invariant
            all == pieces.deep_view(),
            i <= pieces.len(),
            out.deep_view() == kept_names(all.take(i as int)),
        decreases pieces.len() - i,
    {
        assert(all.take(i + 1).drop_last() == all.take(i as int));
        assert(all.take(i + 1).last() == pieces@[i as int]@);
        if pieces[i].as_str().unicode_len() > 0 && !same(pieces[i].as_str(), ".") {
            emit(&mut out, pieces[i].clone());
        }
        i += 1;
    }
    assert(all.take(i as int) == all);
    out
}

/// Whether two absolute paths pass through the same names; repeated and
/// trailing separators and single dots make no difference.
pub open spec fn same_absolute(a: Text, b: Text) -> bool {
    is_absolute(a) && is_absolute(b) && names(a) == names(b)
}

/// Whether two paths are absolute and pass through the same names.
pub fn same_place(a: &str, b: &str) -> (r: bool)
    ensures
        r == same_absolute(a@, b@),
{
    if a.unicode_len() == 0 || a.get_char(0) != '/' {
        return false;
    }
    if b.unicode_len() == 0 || b.get_char(0) != '/' {
        return false;
    }
    let xs = names_of(a);
    let ys = names_of(b);
    if xs.len() != ys.len() {
        assert(xs.deep_view().len() != ys.deep_view().len());
        return false;
    }
    let mut i: usize = 0;
    while i < xs.len()
        invariant
            xs.len() == ys.len(),
            i <= xs.len(),
            xs.deep_view() == names(a@),
            ys.deep_view() == names(b@),
            forall|j: int| 0 <= j < i ==> #[trigger] xs.deep_view()[j] == ys.deep_view()[j],
        decreases xs.len() - i,
    {
        if !same(xs[i].as_str(), ys[i].as_str()) {
            assert(xs.deep_view()[i as int] != ys.deep_view()[i as int]);
            return false;
        }
        assert(xs.deep_view()[i as int] == ys.deep_view()[i as int]);
        i += 1;
    }
    assert(xs.deep_view() == ys.deep_view());
    true
}

/// A relative path below a directory begins with the directory and ends with
/// the path, with one separator between them and no more; an absolute one is
/// itself.
pub proof fn lemma_below(dir: Text, path: Text)
    ensures
        path.len() > 0 && path[0] == '/' ==> under(dir, path) == path,
        path.len() == 0 || path[0] != '/' ==> {
            &&& text::begins(under(dir, path), dir)
            &&& text::ends(under(dir, path), path)
            &&& dir.len() == 0 || dir.last() == '/' ==> under(dir, path).len() == dir.len()
                + path.len()
            &&& dir.len() > 0 && dir.last() != '/' ==> under(dir, path).len() == dir.len()
                + path.len() + 1 && under(dir, path)[dir.len() as int] == '/'
        },
{
    reveal_strlit("/");
    if path.len() == 0 || path[0] != '/' {
        let all = under(dir, path);
        assert(all.subrange(0, dir.len() as int) =~= dir);
        assert(all.subrange(all.len() - path.len(), all.len() as int) =~= path);
    }
}

/// Two absolute paths are one place exactly when they pass through the same
/// names; a separator more at the end makes no difference.
pub proof fn lemma_same_place(a: Text, b: Text)
    ensures
        same_absolute(a, b) <==> a.len() > 0 && a[0] == '/' && b.len() > 0 && b[0] == '/' && names(a)
            == names(b),
        same_absolute(a, b) ==> same_absolute(b, a),
        a.len() > 0 && a[0] == '/' ==> same_absolute(a, a) && same_absolute(a.push('/'), a),
{
    text::lemma_split_ends(a, '/');
    let pieces = text::split(a, '/');
    let more = text::split(a.push('/'), '/');
    assert(more.drop_last() =~= pieces);
    assert(kept_names(more) == kept_names(pieces));
}

/// The names along a path are its pieces that are neither empty nor a single
/// dot.
pub proof fn lemma_names_exactly(pieces: Seq<Text>, name: Text)
    ensures
        kept_names(pieces).contains(name) <==> pieces.contains(name) && name.len() > 0 && name
            != "."@,
    decreases pieces.len(),
{
    if pieces.len() > 0 {
        let rest = pieces.drop_last();
        lemma_names_exactly(rest, name);
        let all = kept_names(pieces);
        let front = kept_names(rest);
        if pieces.contains(name) {
            let k = choose|k: int| 0 <= k < pieces.len() && pieces[k] == name;
            if k < rest.len() {
                assert(rest[k] == name);
            }
        }
        if rest.contains(name) {
            let k = choose|k: int| 0 <= k < rest.len() && rest[k] == name;
            assert(pieces[k] == name);
        }
        assert(pieces[pieces.len() - 1] == pieces.last());
        if front.contains(name) {
            let k = choose|k: int| 0 <= k < front.len() && front[k] == name;
            assert(all[k] == name);
        }
        if all.contains(name) {
            let k = choose|k: int| 0 <= k < all.len() && all[k] == name;
            if k < front.len() {
                assert(front[k] == name);
            }
        }
        if pieces.last() == name && is_name(name) {
            assert(all[front.len() as int] == name);
        }
    }
}

} // verus!
