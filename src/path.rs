use vstd::prelude::*;

use crate::entry::EntryError;
use crate::restore::RestoreError;
use crate::text::{chars_of, push_all, string_of};

verus! {

/// The pieces of `s` between separators, empty pieces included:
/// `"a//b"` has the pieces `a`, ``, `b`, and `""` has one empty piece.
pub open spec fn pieces(s: Seq<char>) -> Seq<Seq<char>>
    decreases s.len(),
{
    if s.len() == 0 {
        seq![Seq::empty()]
    } else {
        let p = pieces(s.drop_last());
        if s.last() == '/' {
            p.push(Seq::empty())
        } else {
            p.update(p.len() - 1, p.last().push(s.last()))
        }
    }
}

pub open spec fn dot() -> Seq<char> {
    seq!['.']
}

pub open spec fn dot_dot() -> Seq<char> {
    seq!['.', '.']
}

/// A piece that is `.` or `..`.
pub open spec fn is_dots(p: Seq<char>) -> bool {
    p == dot() || p == dot_dot()
}

/// A piece that names something: neither empty nor `.` nor `..`.
pub open spec fn is_name(p: Seq<char>) -> bool {
    p.len() > 0 && p != dot() && p != dot_dot()
}

/// Folds one piece into a partly normalized path. Empty pieces are dropped;
/// `.` and `..` are skipped while no name has been seen and are an error
/// after one; names are joined with `/`.
pub open spec fn norm_step(acc: Option<Seq<char>>, p: Seq<char>) -> Option<Seq<char>> {
    match acc {
        None => None,
        Some(out) => if p.len() == 0 {
            Some(out)
        } else if is_dots(p) {
            if out.len() == 0 {
                Some(out)
            } else {
                None
            }
        } else if out.len() == 0 {
            Some(p)
        } else {
            Some(out + seq!['/'] + p)
        },
    }
}

pub open spec fn norm_pieces(ps: Seq<Seq<char>>) -> Option<Seq<char>>
    decreases ps.len(),
{
    if ps.len() == 0 {
        Some(Seq::empty())
    } else {
        norm_step(norm_pieces(ps.drop_last()), ps.last())
    }
}

/// The normalized form of a stored path, or `None` where a `.` or `..`
/// follows a name.
pub open spec fn normalized(s: Seq<char>) -> Option<Seq<char>> {
    norm_pieces(pieces(s))
}

/// `s` with its leading separators removed.
pub open spec fn strip_root(s: Seq<char>) -> Seq<char>
    decreases s.len(),
{
    if s.len() > 0 && s[0] == '/' {
        strip_root(s.drop_first())
    } else {
        s
    }
}

/// A `.` or `..` stands after a name.
pub open spec fn dots_after_name(ps: Seq<Seq<char>>) -> bool {
    exists|i: int, j: int| 0 <= i < j < ps.len() && is_name(#[trigger] ps[i]) && #[trigger] is_dots(ps[j])
}

pub open spec fn has_name(ps: Seq<Seq<char>>) -> bool {
    exists|i: int| 0 <= i < ps.len() && is_name(#[trigger] ps[i])
}

proof fn lemma_pieces_nonempty(s: Seq<char>)
    ensures
        pieces(s).len() >= 1,
    decreases s.len(),
{
    if s.len() > 0 {
        lemma_pieces_nonempty(s.drop_last());
    }
}

/// Turns a stored path into a relative path under the restore target: a
/// leading root is removed with the separators that follow it, and any
/// other path is kept as it is.
pub fn get_path(filename: &str) -> (r: String)
    ensures
        r@ == strip_root(filename@),
{
    let cs = chars_of(filename);
    let mut i: usize = 0;
    proof {
        assert(cs@.skip(0) =~= cs@);
    }
    while i < cs.len() && cs[i] == '/'
        invariant
            i <= cs@.len(),
            strip_root(cs@) == strip_root(cs@.skip(i as int)),
        decreases cs.len() - i,
    {
        proof {
            let t = cs@.skip(i as int);
            assert(t.drop_first() =~= cs@.skip(i + 1));
        }
        i = i + 1;
    }
    let mut out: Vec<char> = Vec::new();
    let mut k: usize = i;
    while k < cs.len()
        invariant
            i <= k <= cs@.len(),
            out@ == cs@.subrange(i as int, k as int),
        decreases cs.len() - k,
    {
        out.push(cs[k]);
        k = k + 1;
        proof {
            assert(out@ =~= cs@.subrange(i as int, k as int));
        }
    }
    proof {
        assert(out@ =~= cs@.skip(i as int));
        let t = cs@.skip(i as int);
        assert(t.len() == 0 || t[0] != '/');
        assert(strip_root(t) == t);
    }
    string_of(&out)
}


/// As a value: `Some(out)` while `ok` holds.
pub open spec fn acc_of(ok: bool, out: Seq<char>) -> Option<Seq<char>> {
    if ok {
        Some(out)
    } else {
        None
    }
}

/// Folds the piece `p` into `out`, as `norm_step` does.
fn fold_piece(ok: bool, out: &mut Vec<char>, p: &Vec<char>) -> (r: bool)
    ensures
        acc_of(r, final(out)@) == norm_step(acc_of(ok, old(out)@), p@),
{
    if !ok {
        return false;
    }
    if p.len() == 0 {
        return true;
    }
    if p.len() == 1 && p[0] == '.' {
        proof {
            assert(p@ =~= dot());
        }
        return out.len() == 0;
    }
    if p.len() == 2 && p[0] == '.' && p[1] == '.' {
        proof {
            assert(p@ =~= dot_dot());
        }
        return out.len() == 0;
    }
    proof {
        assert(p@ != dot() && p@ != dot_dot()) by {
            if p@ == dot() {
                assert(p@[0] == dot()[0]);
            }
            if p@ == dot_dot() {
                assert(p@[0] == dot_dot()[0] && p@[1] == dot_dot()[1]);
            }
        }
    }
    if out.len() > 0 {
        out.push('/');
    }
    push_all(out, p);
    proof {
        if old(out)@.len() > 0 {
            assert(final(out)@ =~= old(out)@ + seq!['/'] + p@);
        } else {
            assert(final(out)@ =~= p@);
        }
    }
    true
}

/// Normalizes a stored path into a relative path of names joined by `/`.
/// Empty pieces are dropped; a leading root and leading `.` and `..` are
/// skipped; a `.` or `..` after a name is refused.
pub fn normalize_filename(path: &str) -> (r: Result<String, EntryError>)
    ensures
        match normalized(path@) {
            Some(o) => r is Ok && r->Ok_0@ == o,
            None => r == Err::<String, EntryError>(EntryError::InvalidInputPath),
        },
{
    let cs = chars_of(path);
    let mut out: Vec<char> = Vec::new();
    let mut cur: Vec<char> = Vec::new();
    let mut ok = true;
    let mut i: usize = 0;
    proof {
        assert(cs@.take(0) =~= Seq::<char>::empty());
    }
    while i < cs.len()
        invariant
            i <= cs@.len(),
            pieces(cs@.take(i as int)).len() >= 1,
            cur@ == pieces(cs@.take(i as int)).last(),
            acc_of(ok, out@) == norm_pieces(pieces(cs@.take(i as int)).drop_last()),
        decreases cs.len() - i,
    {
        let ghost before = pieces(cs@.take(i as int));
        proof {
            assert(cs@.take(i + 1).drop_last() =~= cs@.take(i as int));
        }
        if cs[i] == '/' {
            ok = fold_piece(ok, &mut out, &cur);
            cur = Vec::new();
            proof {
                let after = pieces(cs@.take(i + 1));
                assert(after == before.push(Seq::empty()));
                assert(after.drop_last() =~= before);
                assert(cur@ =~= after.last());
            }
        } else {
            cur.push(cs[i]);
            proof {
                let after = pieces(cs@.take(i + 1));
                assert(after.drop_last() =~= before.drop_last());
            }
        }
        i = i + 1;
    }
    ok = fold_piece(ok, &mut out, &cur);
    proof {
        assert(cs@.take(i as int) =~= cs@);
        lemma_pieces_nonempty(cs@);
    }
    if ok {
        Ok(string_of(&out))
    } else {
        Err(EntryError::InvalidInputPath)
    }
}


proof fn lemma_pieces_after_root(p: Seq<char>)
    ensures
        pieces(seq!['/'] + p) == seq![Seq::<char>::empty()] + pieces(p),
    decreases p.len(),
{
    lemma_pieces_nonempty(p);
    if p.len() == 0 {
        assert((seq!['/'] + p) =~= seq!['/']);
        assert(seq!['/'].drop_last() =~= Seq::<char>::empty());
        assert(seq!['/'].last() == '/');
        assert(pieces(Seq::<char>::empty()) == seq![Seq::<char>::empty()]);
        assert(pieces(seq!['/']) =~= seq![Seq::<char>::empty(), Seq::<char>::empty()]);
    } else {
        let q = seq!['/'] + p;
        assert(q.drop_last() =~= seq!['/'] + p.drop_last());
        lemma_pieces_after_root(p.drop_last());
        lemma_pieces_nonempty(p.drop_last());
        let e = seq![Seq::<char>::empty()];
        if p.last() == '/' {
            assert(pieces(q) =~= e + pieces(p));
        } else {
            assert(pieces(q) =~= e + pieces(p));
        }
    }
}

proof fn lemma_leading_empty_piece(ps: Seq<Seq<char>>)
    ensures
        norm_pieces(seq![Seq::<char>::empty()] + ps) == norm_pieces(ps),
    decreases ps.len(),
{
    let qs = seq![Seq::<char>::empty()] + ps;
    if ps.len() == 0 {
        assert(qs.drop_last() =~= Seq::<Seq<char>>::empty());
        assert(qs.last() == Seq::<char>::empty());
        assert(norm_pieces(Seq::<Seq<char>>::empty()) == Some(Seq::<char>::empty()));
        assert(norm_pieces(qs) == norm_step(Some(Seq::<char>::empty()), Seq::<char>::empty()));
    } else {
        assert(qs.drop_last() =~= seq![Seq::<char>::empty()] + ps.drop_last());
        assert(qs.last() == ps.last());
        lemma_leading_empty_piece(ps.drop_last());
    }
}

/// Removing a root: a path that starts with one `/` before a name comes out
/// as the rest of the path.
pub proof fn lemma_root_removed(p: Seq<char>)
    requires
        p.len() == 0 || p[0] != '/',
    ensures
        strip_root(seq!['/'] + p) == p,
{
    let q = seq!['/'] + p;
    assert(q.drop_first() =~= p);
    assert(q[0] == '/');
    assert(strip_root(p) == p);
}

/// A root in front of a stored path does not change its normalized form.
pub proof fn lemma_root_ignored(p: Seq<char>)
    ensures
        normalized(seq!['/'] + p) == normalized(p),
{
    lemma_pieces_after_root(p);
    lemma_leading_empty_piece(pieces(p));
}

/// A relative path that starts with `./` is kept as it is.
pub proof fn lemma_current_dir_kept(p: Seq<char>)
    ensures
        strip_root(seq!['.', '/'] + p) == seq!['.', '/'] + p,
{
}

proof fn lemma_norm_pieces_fails(ps: Seq<Seq<char>>)
    ensures
        norm_pieces(ps) is None <==> dots_after_name(ps),
        norm_pieces(ps) is Some ==> (norm_pieces(ps)->0.len() == 0 <==> !has_name(ps)),
    decreases ps.len(),
{
    if ps.len() > 0 {
        let qs = ps.drop_last();
        let x = ps.last();
        lemma_norm_pieces_fails(qs);
        assert(has_name(ps) <==> has_name(qs) || is_name(x)) by {
            if has_name(qs) {
                let i = choose|i: int| 0 <= i < qs.len() && is_name(#[trigger] qs[i]);
                assert(ps[i] == qs[i]);
            }
            if is_name(x) {
                assert(ps[ps.len() - 1] == x);
            }
            if has_name(ps) {
                let i = choose|i: int| 0 <= i < ps.len() && is_name(#[trigger] ps[i]);
                if i < qs.len() {
                    assert(qs[i] == ps[i]);
                }
            }
        }
        assert(dots_after_name(ps) <==> dots_after_name(qs) || (is_dots(x) && has_name(qs))) by {
            if dots_after_name(qs) {
                let (i, j) = choose|i: int, j: int| 0 <= i < j < qs.len() && is_name(#[trigger] qs[i]) && #[trigger] is_dots(qs[j]);
                assert(ps[i] == qs[i] && ps[j] == qs[j]);
            }
            if is_dots(x) && has_name(qs) {
                let i = choose|i: int| 0 <= i < qs.len() && is_name(#[trigger] qs[i]);
                assert(ps[i] == qs[i] && ps[ps.len() - 1] == x);
            }
            if dots_after_name(ps) {
                let (i, j) = choose|i: int, j: int| 0 <= i < j < ps.len() && is_name(#[trigger] ps[i]) && #[trigger] is_dots(ps[j]);
                assert(qs[i] == ps[i]);
                if j < qs.len() {
                    assert(qs[j] == ps[j]);
                } else {
                    assert(ps[j] == x);
                }
            }
        }
        if norm_pieces(qs) is Some && norm_pieces(qs)->0.len() > 0 && is_name(x) {
            assert((norm_pieces(qs)->0 + seq!['/'] + x).len() > 0);
        }
    } else {
        assert(!has_name(ps));
        assert(!dots_after_name(ps));
    }
}

/// A stored path is refused exactly when a `.` or `..` stands after a name
/// in it.
pub proof fn lemma_dots_after_name_refused(s: Seq<char>)
    ensures
        normalized(s) is None <==> dots_after_name(pieces(s)),
{
    lemma_norm_pieces_fails(pieces(s));
}


/// `p` under the directory `t`.
pub open spec fn joined(t: Seq<char>, p: Seq<char>) -> Seq<char> {
    if t.len() == 0 || t.last() == '/' {
        t + p
    } else {
        t + seq!['/'] + p
    }
}

/// What comes before the last separator of `s`; empty where there is none.
pub open spec fn before_last_slash(s: Seq<char>) -> Seq<char>
    decreases s.len(),
{
    if s.len() == 0 {
        Seq::empty()
    } else if s.last() == '/' {
        s.drop_last()
    } else {
        before_last_slash(s.drop_last())
    }
}

fn join_chars(t: &Vec<char>, p: &Vec<char>) -> (r: Vec<char>)
    ensures
        r@ == joined(t@, p@),
{
    let mut r: Vec<char> = Vec::new();
    push_all(&mut r, t);
    if t.len() > 0 && t[t.len() - 1] != '/' {
        r.push('/');
    }
    push_all(&mut r, p);
    proof {
        if t@.len() == 0 || t@.last() == '/' {
            assert(r@ =~= t@ + p@);
        } else {
            assert(r@ =~= t@ + seq!['/'] + p@);
        }
    }
    r
}

fn parent_chars(s: &Vec<char>) -> (r: Vec<char>)
    ensures
        r@ == before_last_slash(s@),
{
    let mut i: usize = s.len();
    proof {
        assert(s@.take(i as int) =~= s@);
    }
    while i > 0 && s[i - 1] != '/'
        invariant
            i <= s@.len(),
            before_last_slash(s@.take(i as int)) == before_last_slash(s@),
        decreases i,
    {
        proof {
            assert(s@.take(i as int).drop_last() =~= s@.take(i - 1));
        }
        i = i - 1;
    }
    let mut r: Vec<char> = Vec::new();
    if i > 0 {
        let mut k: usize = 0;
        while k < i - 1
            invariant
                0 < i <= s@.len(),
                k <= i - 1,
                r@ == s@.take(k as int),
            decreases i - 1 - k,
        {
            r.push(s[k]);
            k = k + 1;
            proof {
                assert(r@ =~= s@.take(k as int));
            }
        }
        proof {
            assert(s@.take(i as int).drop_last() =~= s@.take(i - 1));
        }
    } else {
        proof {
            assert(s@.take(0) =~= Seq::<char>::empty());
        }
    }
    r
}

/// Where an entry goes on disk, and the directory that must exist first.
#[derive(Debug, Clone)]
pub struct Destination {
    pub parent: Option<String>,
    pub path: String,
}

/// Places the stored path `name` under the directory `target`: the
/// normalized path, names only, goes below `target`, and so does its parent
/// directory. A name that normalizes to nothing has no parent to create. A
/// path with `.` or `..` after a name is refused, so nothing lands outside
/// `target`.
pub fn destination(target: &str, name: &str) -> (r: Result<Destination, RestoreError>)
    ensures
        match normalized(name@) {
            None => r == Err::<Destination, RestoreError>(RestoreError::PathError),
            Some(n) => r is Ok && r->Ok_0.path@ == joined(target@, n) && (n.len() == 0
                ==> r->Ok_0.parent is None) && (n.len() > 0 ==> r->Ok_0.parent is Some
                && r->Ok_0.parent->0@ == joined(target@, before_last_slash(n))),
        },
{
    let rel = match normalize_filename(name) {
        Ok(n) => chars_of(n.as_str()),
        Err(_) => return Err(RestoreError::PathError),
    };
    let t = chars_of(target);
    let path = string_of(&join_chars(&t, &rel));
    let parent = if rel.len() == 0 {
        None
    } else {
        Some(string_of(&join_chars(&t, &parent_chars(&rel))))
    };
    Ok(Destination { parent, path })
}

} // verus!
