//! Paths: their canonical form, and how they split into names.
use vstd::prelude::*;
use vstd::string::{StrSliceExecFns, StringExecFns};

verus! {

/// The pieces that the first `n` characters of `s` fall into at the slashes.
/// There is always a last piece, which may be empty.
pub open spec fn pieces(s: Seq<char>, n: nat) -> Seq<Seq<char>>
    decreases n,
{
    if n == 0 {
        seq![Seq::<char>::empty()]
    } else {
        let before = pieces(s, (n - 1) as nat);
        if s[n - 1] == '/' {
            before.push(Seq::<char>::empty())
        } else {
            before.update(before.len() - 1, before.last().push(s[n - 1]))
        }
    }
}

/// The pieces that `s` falls into at the slashes.
pub open spec fn split(s: Seq<char>) -> Seq<Seq<char>> {
    pieces(s, s.len())
}

/// The names `names` with one more piece of a path taken in: an empty piece
/// and `.` change nothing, `..` takes the last name away if there is one,
/// and anything else is a name more.
pub open spec fn step(names: Seq<Seq<char>>, piece: Seq<char>) -> Seq<Seq<char>> {
    if piece.len() == 0 || piece == seq!['.'] {
        names
    } else if piece == seq!['.', '.'] {
        if names.len() > 0 {
            names.drop_last()
        } else {
            names
        }
    } else {
        names.push(piece)
    }
}

/// The names that are left of the first `n` pieces.
pub open spec fn resolve(parts: Seq<Seq<char>>, n: nat) -> Seq<Seq<char>>
    decreases n,
{
    if n == 0 {
        Seq::empty()
    } else {
        step(resolve(parts, (n - 1) as nat), parts[n - 1])
    }
}

/// The first `n` of `names` with a slash between each two.
pub open spec fn join(names: Seq<Seq<char>>, n: nat) -> Seq<char>
    decreases n,
{
    if n == 0 {
        Seq::empty()
    } else if n == 1 {
        names[0]
    } else {
        join(names, (n - 1) as nat) + seq!['/'] + names[n - 1]
    }
}

/// Whether the path starts at the root.
pub open spec fn is_absolute(path: Seq<char>) -> bool {
    path.len() > 0 && path[0] == '/'
}

/// The canonical form of a path: the names that are left when empty pieces
/// and `.` are dropped and each `..` has taken away the name before it,
/// with one slash between each two, and one in front where the path starts
/// at the root.
pub open spec fn canonical(path: Seq<char>) -> Seq<char> {
    let names = resolve(split(path), split(path).len());
    if is_absolute(path) {
        seq!['/'] + join(names, names.len())
    } else {
        join(names, names.len())
    }
}

/// The parts of `path` that the ranges `ranges` cut out.
pub open spec fn cut(path: Seq<char>, ranges: Seq<(usize, usize)>) -> Seq<Seq<char>> {
    Seq::new(ranges.len(), |k: int| path.subrange(ranges[k].0 as int, ranges[k].1 as int))
}

/// A path has a piece at least.
pub proof fn lemma_pieces(s: Seq<char>, n: nat)
    ensures
        pieces(s, n).len() >= 1,
    decreases n,
{
    if n > 0 {
        lemma_pieces(s, (n - 1) as nat);
    }
}

/// What is left of some pieces depends on those pieces alone.
pub proof fn lemma_resolve_prefix(a: Seq<Seq<char>>, b: Seq<Seq<char>>, n: nat)
    requires
        n <= a.len(),
        n <= b.len(),
        forall|k: int| 0 <= k < n ==> a[k] == b[k],
    ensures
        resolve(a, n) == resolve(b, n),
    decreases n,
{
    if n > 0 {
        lemma_resolve_prefix(a, b, (n - 1) as nat);
    }
}

/// Takes the piece of `path` from `start` up to `end` into the names.
fn take_piece(path: &str, names: &mut Vec<(usize, usize)>, start: usize, end: usize)
    requires
        start <= end <= path@.len(),
        forall|k: int| 0 <= k < old(names)@.len() ==> (#[trigger] old(names)@[k]).0 <= old(names)@[k].1
            <= path@.len(),
    ensures
        cut(path@, final(names)@) == step(cut(path@, old(names)@), path@.subrange(start as int, end as int)),
        forall|k: int| 0 <= k < final(names)@.len() ==> (#[trigger] final(names)@[k]).0 <= final(names)@[k].1
            <= path@.len(),
{
    let len = end - start;
    let ghost piece = path@.subrange(start as int, end as int);
    let ghost before = cut(path@, names@);
    if len == 0 {
        return ;
    }
    if len == 1 && path.get_char(start) == '.' {
        assert(piece =~= seq!['.']);
        return ;
    }
    if len == 2 && path.get_char(start) == '.' && path.get_char(start + 1) == '.' {
        assert(piece =~= seq!['.', '.']);
        if names.len() > 0 {
            names.pop();
            assert(cut(path@, names@) =~= before.drop_last());
        }
        return ;
    }
    proof {
        assert(piece.len() == len);
        if piece == seq!['.'] {
            assert(seq!['.'].len() == 1);
            assert(piece[0] == '.');
            assert(piece[0] == path@[start as int]);
        }
        if piece == seq!['.', '.'] {
            assert(seq!['.', '.'].len() == 2);
            assert(piece[0] == '.' && piece[1] == '.');
            assert(piece[0] == path@[start as int]);
            assert(piece[1] == path@[start + 1]);
        }
    }
    names.push((start, end));
    assert(cut(path@, names@) =~= before.push(piece));
}

/// The canonical form of `path`.
pub fn canonicalize(path: &str) -> (r: String)
    ensures
        r@ == canonical(path@),
{
    let n = path.unicode_len();
    let mut names: Vec<(usize, usize)> = Vec::new();
    let mut start: usize = 0;
    let mut i: usize = 0;
    proof {
        assert(cut(path@, names@) =~= resolve(pieces(path@, 0).drop_last(), 0));
        assert(pieces(path@, 0).last() =~= path@.subrange(0, 0));
    }
    while i < n
        invariant
            n == path@.len(),
            start <= i <= n,
            pieces(path@, i as nat).len() >= 1,
            pieces(path@, i as nat).last() == path@.subrange(start as int, i as int),
            cut(path@, names@) == resolve(
                pieces(path@, i as nat).drop_last(),
                (pieces(path@, i as nat).len() - 1) as nat,
            ),
            forall|k: int| 0 <= k < names@.len() ==> (#[trigger] names@[k]).0 <= names@[k].1 <= path@.len(),
        decreases n - i,
    {
        let ghost before = pieces(path@, i as nat);
        let ghost after = pieces(path@, (i + 1) as nat);
        proof {
            lemma_pieces(path@, (i + 1) as nat);
        }
        if path.get_char(i) == '/' {
            take_piece(path, &mut names, start, i);
            start = i + 1;
            proof {
                assert(after == before.push(Seq::<char>::empty()));
                assert(after.drop_last() =~= before);
                lemma_resolve_prefix(before, before.drop_last(), (before.len() - 1) as nat);
                assert(after.last() =~= path@.subrange(i + 1, i + 1));
            }
        } else {
            proof {
                assert(after == before.update(before.len() - 1, before.last().push(path@[i as int])));
                assert(after.drop_last() =~= before.drop_last());
                assert(after.last() =~= path@.subrange(start as int, i + 1));
            }
        }
        i += 1;
    }
    take_piece(path, &mut names, start, n);
    proof {
        let all = split(path@);
        lemma_resolve_prefix(all, all.drop_last(), (all.len() - 1) as nat);
        assert(cut(path@, names@) == resolve(all, all.len()));
        reveal_strlit("/");
        assert("/"@ =~= seq!['/']);
    }
    let absolute = n > 0 && path.get_char(0) == '/';
    let mut out = if absolute {
        String::from_str("/")
    } else {
        String::new()
    };
    let ghost head = out@;
    let mut k: usize = 0;
    while k < names.len()
        invariant
            k <= names@.len(),
            out@ == head + join(cut(path@, names@), k as nat),
            "/"@ == seq!['/'],
            forall|j: int| 0 <= j < names@.len() ==> (#[trigger] names@[j]).0 <= names@[j].1 <= path@.len(),
        decreases names@.len() - k,
    {
        if k > 0 {
            out.append("/");
        }
        let (s, e) = names[k];
        out.append(path.substring_char(s, e));
        proof {
            let parts = cut(path@, names@);
            assert(parts[k as int] == path@.subrange(s as int, e as int));
            if k > 0 {
                assert(out@ =~= head + (join(parts, k as nat) + seq!['/'] + parts[k as int]));
            } else {
                assert(join(parts, 0) =~= Seq::<char>::empty());
                assert(out@ =~= head + parts[0]);
            }
        }
        k += 1;
    }
    proof {
        assert(Seq::<char>::empty() + join(cut(path@, names@), k as nat) =~= join(cut(path@, names@), k as nat));
    }
    out
}

/// The texts that the strings hold.
pub open spec fn texts(v: Seq<String>) -> Seq<Seq<char>> {
    Seq::new(v.len(), |i: int| v[i]@)
}

/// The pieces that the canonical form of `path` falls into at the slashes.
pub fn split_path(path: &str) -> (names: Vec<String>)
    ensures
        texts(names@) == split(canonical(path@)),
        names@.len() >= 1,
{
    let processed = canonicalize(path);
    let s = processed.as_str();
    let n = s.unicode_len();
    let mut names: Vec<String> = Vec::new();
    let mut start: usize = 0;
    let mut i: usize = 0;
    proof {
        assert(texts(names@) =~= pieces(s@, 0).drop_last());
        assert(pieces(s@, 0).last() =~= s@.subrange(0, 0));
    }
    while i < n
        invariant
            n == s@.len(),
            start <= i <= n,
            pieces(s@, i as nat).len() >= 1,
            pieces(s@, i as nat).last() == s@.subrange(start as int, i as int),
            texts(names@) == pieces(s@, i as nat).drop_last(),
        decreases n - i,
    {
        let ghost before = pieces(s@, i as nat);
        let ghost after = pieces(s@, (i + 1) as nat);
        proof {
            lemma_pieces(s@, (i + 1) as nat);
        }
        if s.get_char(i) == '/' {
            let ghost old_names = texts(names@);
            names.push(String::from_str(s.substring_char(start, i)));
            start = i + 1;
            proof {
                assert(after == before.push(Seq::<char>::empty()));
                assert(after.drop_last() =~= before);
                assert(texts(names@) =~= old_names.push(before.last()));
                assert(before =~= before.drop_last().push(before.last()));
                assert(after.last() =~= s@.subrange(i + 1, i + 1));
            }
        } else {
            proof {
                assert(after == before.update(before.len() - 1, before.last().push(s@[i as int])));
                assert(after.drop_last() =~= before.drop_last());
                assert(after.last() =~= s@.subrange(start as int, i + 1));
            }
        }
        i += 1;
    }
    let ghost old_names = texts(names@);
    names.push(String::from_str(s.substring_char(start, n)));
    proof {
        let all = split(s@);
        assert(texts(names@) =~= old_names.push(all.last()));
        assert(all =~= all.drop_last().push(all.last()));
    }
    names
}

/// The path `path`, which is not empty, as the path of its parent and its
/// last name; there is no parent where the canonical form has no slash, or
/// none but one in front.
pub fn split_parent_name(path: &str) -> (r: (Option<String>, String))
    requires
        path@.len() > 0,
    ensures
        ({
            let names = split(canonical(path@));
            let parent = join(names, (names.len() - 1) as nat);
            &&& r.1@ == names.last()
            &&& match r.0 {
                Some(p) => p@ == parent && parent.len() > 0,
                None => parent.len() == 0,
            }
        }),
{
    let names = split_path(path);
    let n = names.len();
    let ghost all = texts(names@);
    let mut parent = String::new();
    let mut k: usize = 0;
    proof {
        reveal_strlit("/");
        assert("/"@ =~= seq!['/']);
    }
    while k + 1 < n
        invariant
            n == names@.len(),
            n >= 1,
            k + 1 <= n,
            all == texts(names@),
            parent@ == join(all, k as nat),
            "/"@ == seq!['/'],
        decreases n - k,
    {
        if k > 0 {
            parent.append("/");
        }
        parent.append(names[k].as_str());
        proof {
            assert(all[k as int] == names@[k as int]@);
            if k == 0 {
                assert(join(all, 0) =~= Seq::<char>::empty());
                assert(parent@ =~= all[0]);
            }
        }
        k += 1;
    }
    let name = names[n - 1].clone();
    proof {
        assert(all[n - 1] == names@[n - 1]@);
    }
    if parent.as_str().unicode_len() == 0 {
        (None, name)
    } else {
        (Some(parent), name)
    }
}

} // verus!
