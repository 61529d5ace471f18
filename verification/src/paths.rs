//! File paths as text: `/` separates the components, and a path that starts with
//! `/` is absolute. Empty components and `.` count for nothing, but for a `.` that a
//! relative path starts with.
use vstd::prelude::*;
use crate::text::{chars_of, split_on, split_on_nonempty, split_text, text_of, texts};

verus! {

/// The name of the current directory.
pub open spec fn here() -> Seq<char> {
    seq!['.']
}

/// The name of the parent directory.
pub open spec fn above() -> Seq<char> {
    seq!['.', '.']
}

/// The root directory.
pub open spec fn root() -> Seq<char> {
    seq!['/']
}

/// `p` without trailing separators and trailing `.` components; the root stays.
pub open spec fn settled(p: Seq<char>) -> Seq<char>
    decreases p.len(),
{
    if p.len() > 1 && (p.last() == '/' || (p.last() == '.' && p[p.len() - 2] == '/')) {
        settled(p.drop_last())
    } else {
        p
    }
}

/// What follows the last separator of `p`.
pub open spec fn last_piece(p: Seq<char>) -> Seq<char>
    decreases p.len(),
{
    if p.len() == 0 || p.last() == '/' {
        Seq::<char>::empty()
    } else {
        last_piece(p.drop_last()).push(p.last())
    }
}

/// `p` up to its last separator, which is included.
pub open spec fn front_piece(p: Seq<char>) -> Seq<char>
    decreases p.len(),
{
    if p.len() == 0 || p.last() == '/' {
        p
    } else {
        front_piece(p.drop_last())
    }
}

/// The last component of `p`, unless it is `.`, `..` or the root.
pub open spec fn file_name(p: Seq<char>) -> Option<Seq<char>> {
    let n = last_piece(settled(p));
    if n.len() == 0 || n == here() || n == above() {
        None
    } else {
        Some(n)
    }
}

/// `p` without its last component; `None` for the root and for the empty path.
pub open spec fn parent(p: Seq<char>) -> Option<Seq<char>> {
    let q = settled(p);
    if q.len() == 0 || q == root() {
        None
    } else {
        Some(settled(front_piece(q)))
    }
}

proof fn lemma_settled_is_no_longer(p: Seq<char>)
    ensures
        settled(p).len() <= p.len(),
    decreases p.len(),
{
    if settled(p) != p {
        lemma_settled_is_no_longer(p.drop_last());
    }
}

proof fn lemma_front_is_shorter(p: Seq<char>)
    ensures
        front_piece(p).len() <= p.len(),
        p.len() > 0 && p.last() != '/' ==> front_piece(p).len() < p.len(),
    decreases p.len(),
{
    if p.len() > 0 && p.last() != '/' {
        lemma_front_is_shorter(p.drop_last());
    }
}

pub(crate) proof fn lemma_parent_is_shorter(p: Seq<char>)
    requires
        parent(p) is Some,
    ensures
        parent(p)->0.len() < p.len(),
{
    let q = settled(p);
    lemma_settled_is_no_longer(p);
    lemma_settled_has_no_slash(p);
    lemma_front_is_shorter(q);
    lemma_settled_is_no_longer(front_piece(q));
}

proof fn lemma_settled_has_no_slash(p: Seq<char>)
    ensures
        settled(p).len() > 1 ==> settled(p).last() != '/',
        settled(p).len() == 1 && settled(p).last() == '/' ==> settled(p) == root(),
    decreases p.len(),
{
    if p.len() > 1 && (p.last() == '/' || (p.last() == '.' && p[p.len() - 2] == '/')) {
        lemma_settled_has_no_slash(p.drop_last());
    }
    if settled(p).len() == 1 && settled(p).last() == '/' {
        assert(settled(p) =~= root());
    }
}

pub(crate) proof fn lemma_last_piece(front: Seq<char>, name: Seq<char>)
    requires
        !name.contains('/'),
        front.len() == 0 || front.last() == '/',
    ensures
        last_piece(front + name) == name,
        front_piece(front + name) == front,
    decreases name.len(),
{
    if name.len() == 0 {
        assert(front + name =~= front);
    } else {
        assert(name.contains(name.last()));
        assert((front + name).last() == name.last());
        assert((front + name).drop_last() =~= front + name.drop_last());
        assert forall|c: char| name.drop_last().contains(c) implies name.contains(c) by {
            let i = choose|i: int| 0 <= i < name.drop_last().len() && name.drop_last()[i] == c;
            assert(name[i] == c);
        }
        lemma_last_piece(front, name.drop_last());
        assert(name.drop_last().push(name.last()) =~= name);
    }
}

/// `rel` below `base`; an absolute `rel` replaces `base`.
pub open spec fn join(base: Seq<char>, rel: Seq<char>) -> Seq<char> {
    if rel.len() > 0 && rel[0] == '/' {
        rel
    } else if base.len() == 0 || base.last() == '/' {
        base + rel
    } else {
        base.push('/') + rel
    }
}

/// `p` with its file name replaced by `name`; below `p` where it has no file name.
pub open spec fn with_file_name(p: Seq<char>, name: Seq<char>) -> Seq<char> {
    if file_name(p) is Some && parent(p) is Some {
        join(parent(p)->0, name)
    } else {
        join(p, name)
    }
}

/// The position of the last `.` of a name, or -1.
pub open spec fn last_dot(n: Seq<char>) -> int
    decreases n.len(),
{
    if n.len() == 0 {
        -1
    } else if n.last() == '.' {
        n.len() - 1
    } else {
        last_dot(n.drop_last())
    }
}

/// The file name up to its last `.`; all of it when that is where it starts.
pub open spec fn file_stem(p: Seq<char>) -> Option<Seq<char>> {
    match file_name(p) {
        Some(n) => Some(if last_dot(n) > 0 { n.take(last_dot(n)) } else { n }),
        None => None,
    }
}

/// What follows the last `.` of the file name, unless the name starts there.
pub open spec fn extension(p: Seq<char>) -> Option<Seq<char>> {
    match file_name(p) {
        Some(n) => if last_dot(n) > 0 { Some(n.skip(last_dot(n) + 1)) } else { None },
        None => None,
    }
}

fn settled_len(v: &Vec<char>) -> (r: usize)
    ensures
        r <= v@.len(),
        settled(v@) == v@.take(r as int),
{
    let mut n: usize = v.len();
    assert(v@.take(n as int) =~= v@);
    while n > 1 && (v[n - 1] == '/' || (v[n - 1] == '.' && v[n - 2] == '/'))
        invariant
            n <= v@.len(),
            settled(v@) == settled(v@.take(n as int)),
        decreases n,
    {
        assert(v@.take(n as int).drop_last() =~= v@.take(n - 1));
        n -= 1;
    }
    n
}

fn piece_start(v: &Vec<char>, n: usize) -> (k: usize)
    requires
        n <= v@.len(),
    ensures
        k <= n,
        last_piece(v@.take(n as int)) == v@.subrange(k as int, n as int),
        front_piece(v@.take(n as int)) == v@.take(k as int),
{
    let mut k: usize = n;
    let ghost empty = Seq::<char>::empty();
    assert(v@.subrange(n as int, n as int) =~= empty);
    while k > 0 && v[k - 1] != '/'
        invariant
            0 <= k <= n <= v@.len(),
            last_piece(v@.take(n as int)) == last_piece(v@.take(k as int)) + v@.subrange(
                k as int,
                n as int,
            ),
            front_piece(v@.take(n as int)) == front_piece(v@.take(k as int)),
        decreases k,
    {
        assert(v@.take(k as int).drop_last() =~= v@.take(k - 1));
        assert(last_piece(v@.take(k as int)) == last_piece(v@.take(k - 1)).push(v@[k - 1]));
        assert(last_piece(v@.take(k - 1)).push(v@[k - 1]) + v@.subrange(k as int, n as int)
            =~= last_piece(v@.take(k - 1)) + v@.subrange(k - 1, n as int));
        k -= 1;
    }
    assert(last_piece(v@.take(k as int)) =~= empty);
    assert(empty + v@.subrange(k as int, n as int) =~= v@.subrange(k as int, n as int));
    k
}

/// The last component of `p`, unless it is `.`, `..` or the root.
pub fn file_name_of(p: &str) -> (r: Option<String>)
    ensures
        r is Some == file_name(p@) is Some,
        r is Some ==> r->0@ == file_name(p@)->0,
{
    let v = chars_of(p);
    let n: usize = settled_len(&v);
    let k: usize = piece_start(&v, n);
    let ghost piece = v@.subrange(k as int, n as int);
    if k == n {
        return None;
    }
    if n - k == 1 && v[k] == '.' {
        assert(piece =~= here());
        return None;
    }
    if n - k == 2 && v[k] == '.' && v[k + 1] == '.' {
        assert(piece =~= above());
        return None;
    }
    proof {
        if piece == here() {
            assert(piece[0] == '.');
            assert(piece.len() == 1);
        }
        if piece == above() {
            assert(piece[0] == '.' && piece[1] == '.');
            assert(piece.len() == 2);
        }
    }
    Some(text_of(&v, k, n))
}

/// `p` without its last component; `None` for the root and for the empty path.
pub fn parent_of(p: &str) -> (r: Option<String>)
    ensures
        r is Some == parent(p@) is Some,
        r is Some ==> r->0@ == parent(p@)->0,
{
    let v = chars_of(p);
    let n: usize = settled_len(&v);
    if n == 0 {
        return None;
    }
    if n == 1 && v[0] == '/' {
        assert(v@.take(1) =~= root());
        return None;
    }
    proof {
        if v@.take(n as int) == root() {
            assert(v@.take(n as int)[0] == '/');
            assert(v@.take(n as int).len() == 1);
        }
    }
    let k: usize = piece_start(&v, n);
    let front = text_of(&v, 0, k);
    assert(front@ =~= v@.take(k as int));
    let w = chars_of(front.as_str());
    let m: usize = settled_len(&w);
    let out = text_of(&w, 0, m);
    assert(out@ =~= w@.take(m as int));
    Some(out)
}

/// `rel` below `base`; an absolute `rel` replaces `base`.
pub fn join_path(base: &str, rel: &str) -> (r: String)
    ensures
        r@ == join(base@, rel@),
{
    let b = chars_of(base);
    let t = chars_of(rel);
    if t.len() > 0 && t[0] == '/' {
        return rel.to_owned();
    }
    let mut s = base.to_owned();
    if b.len() > 0 && b[b.len() - 1] != '/' {
        s.push('/');
    }
    s.append(rel);
    s
}

/// `p` with its file name replaced by `name`; below `p` where it has no file name.
pub fn replace_file_name(p: &str, name: &str) -> (r: String)
    ensures
        r@ == with_file_name(p@, name@),
{
    if file_name_of(p).is_some() {
        if let Some(d) = parent_of(p) {
            return join_path(d.as_str(), name);
        }
    }
    join_path(p, name)
}

fn dot_position(v: &Vec<char>) -> (k: Option<usize>)
    ensures
        k is Some == (last_dot(v@) > 0),
        k is Some ==> k->0 == last_dot(v@) && k->0 < v@.len(),
{
    let mut n: usize = v.len();
    assert(v@.take(n as int) =~= v@);
    while n > 0 && v[n - 1] != '.'
        invariant
            n <= v@.len(),
            last_dot(v@) == last_dot(v@.take(n as int)),
        decreases n,
    {
        assert(v@.take(n as int).drop_last() =~= v@.take(n - 1));
        n -= 1;
    }
    if n > 1 {
        Some(n - 1)
    } else {
        None
    }
}

/// The file name up to its last `.`; all of it when that is where it starts.
pub fn file_stem_of(p: &str) -> (r: Option<String>)
    ensures
        r is Some == file_stem(p@) is Some,
        r is Some ==> r->0@ == file_stem(p@)->0,
{
    match file_name_of(p) {
        None => None,
        Some(n) => {
            let v = chars_of(n.as_str());
            match dot_position(&v) {
                None => Some(n),
                Some(k) => {
                    let out = text_of(&v, 0, k);
                    assert(out@ =~= v@.take(k as int));
                    Some(out)
                },
            }
        },
    }
}

/// What follows the last `.` of the file name, unless the name starts there.
pub fn extension_of(p: &str) -> (r: Option<String>)
    ensures
        r is Some == extension(p@) is Some,
        r is Some ==> r->0@ == extension(p@)->0,
{
    match file_name_of(p) {
        None => None,
        Some(n) => {
            let v = chars_of(n.as_str());
            match dot_position(&v) {
                None => None,
                Some(k) => {
                    let end: usize = v.len();
                    let out = text_of(&v, k + 1, end);
                    assert(out@ =~= v@.skip(k + 1));
                    Some(out)
                },
            }
        },
    }
}

/// Whether a component counts: it is not empty and not `.`.
pub open spec fn counts(piece: Seq<char>) -> bool {
    piece.len() > 0 && piece != here()
}

/// The components of `p` that count.
pub open spec fn components(p: Seq<char>) -> Seq<Seq<char>> {
    split_on(p, '/').filter(|piece: Seq<char>| counts(piece))
}

/// Whether `p` starts at the root.
pub open spec fn is_absolute(p: Seq<char>) -> bool {
    p.len() > 0 && p[0] == '/'
}

/// Whether the first component of `p` is `.`.
pub open spec fn starts_here(p: Seq<char>) -> bool {
    split_on(p, '/')[0] == here()
}

/// Whether two paths have the same components.
pub open spec fn same_place(a: Seq<char>, b: Seq<char>) -> bool {
    &&& is_absolute(a) == is_absolute(b)
    &&& starts_here(a) == starts_here(b)
    &&& components(a) == components(b)
}

fn is_here(s: &str) -> (r: bool)
    ensures
        r == (s@ == here()),
{
    let v = chars_of(s);
    let r = v.len() == 1 && v[0] == '.';
    proof {
        if r {
            assert(s@ =~= here());
        } else if s@ == here() {
            assert(s@[0] == '.');
        }
    }
    r
}

fn components_of(p: &str) -> (out: (bool, Vec<String>))
    ensures
        out.0 == starts_here(p@),
        texts(out.1@) == components(p@),
{
    let pieces = split_text(p, '/');
    let ghost all = texts(pieces@);
    let ghost keep = |piece: Seq<char>| counts(piece);
    let mut out: Vec<String> = Vec::new();
    let mut i: usize = 0;
    proof {
        crate::text::split_on_nonempty(p@, '/');
        assert(all[0] == pieces@[0]@);
        reveal(Seq::filter);
        assert(all.take(0).filter(keep) =~= Seq::<Seq<char>>::empty());
    }
    let first_here = is_here(pieces[0].as_str());
    while i < pieces.len()
        invariant
            0 <= i <= pieces@.len(),
            all == texts(pieces@),
            keep == (|piece: Seq<char>| counts(piece)),
            texts(out@) == all.take(i as int).filter(keep),
        decreases pieces@.len() - i,
    {
        let ghost before = texts(out@);
        proof {
            reveal(Seq::filter);
            assert(all.take(i + 1).drop_last() =~= all.take(i as int));
            assert(all.take(i + 1).last() == pieces@[i as int]@);
        }
        if !pieces[i].as_str().is_empty() && !is_here(pieces[i].as_str()) {
            out.push(pieces[i].clone());
            assert(texts(out@) =~= before.push(pieces@[i as int]@));
        }
        i += 1;
    }
    assert(all.take(pieces@.len() as int) =~= all);
    (first_here, out)
}

fn starts_at_root(p: &str) -> (r: bool)
    ensures
        r == is_absolute(p@),
{
    let v = chars_of(p);
    v.len() > 0 && v[0] == '/'
}

/// Whether two paths have the same components.
pub fn same_path(a: &str, b: &str) -> (r: bool)
    ensures
        r == same_place(a@, b@),
{
    let (ha, ca) = components_of(a);
    let (hb, cb) = components_of(b);
    if starts_at_root(a) != starts_at_root(b) || ha != hb {
        return false;
    }
    same_texts(&ca, &cb)
}

fn same_texts(x: &Vec<String>, y: &Vec<String>) -> (r: bool)
    ensures
        r == (texts(x@) == texts(y@)),
{
    if x.len() != y.len() {
        assert(texts(x@).len() != texts(y@).len());
        return false;
    }
    let mut i: usize = 0;
    while i < x.len()
        invariant
            x@.len() == y@.len(),
            0 <= i <= x@.len(),
            forall|k: int| 0 <= k < i ==> x@[k]@ == y@[k]@,
        decreases x@.len() - i,
    {
        if x[i] != y[i] {
            assert(texts(x@)[i as int] != texts(y@)[i as int]);
            return false;
        }
        i += 1;
    }
    assert(texts(x@) =~= texts(y@));
    true
}

/// Whether the text is one name: not empty, without a slash, and neither `.` nor `..`.
pub open spec fn is_one_name(n: Seq<char>) -> bool {
    n.len() > 0 && !n.contains('/') && n != seq!['.'] && n != seq!['.', '.']
}

proof fn lemma_name_is_settled(front: Seq<char>, name: Seq<char>)
    requires
        is_one_name(name),
        front.len() == 0 || front.last() == '/',
    ensures
        settled(front + name) == front + name,
{
    let p = front + name;
    assert(name.contains(name.last()));
    assert(p.last() == name.last());
    if p.len() > 1 && p.last() == '.' && p[p.len() - 2] == '/' {
        if name.len() >= 2 {
            assert(name.contains(name[name.len() - 2]));
            assert(p[p.len() - 2] == name[name.len() - 2]);
        } else {
            assert(name =~= seq!['.']);
        }
    }
}

/// A slash at the end of a path says nothing, and neither does a `.` behind one.
pub proof fn a_slash_at_the_end_says_nothing(p: Seq<char>)
    requires
        p.len() > 0,
    ensures
        settled(p.push('/')) == settled(p),
        settled(p.push('/').push('.')) == settled(p),
        settled(settled(p)) == settled(p),
        settled(p).is_prefix_of(p),
    decreases p.len(),
{
    assert(p.push('/').drop_last() =~= p);
    let q = p.push('/');
    let r = q.push('.');
    assert(r.drop_last() =~= q);
    assert(r.last() == '.' && r[r.len() - 2] == '/');
    assert(settled(r) == settled(q));
    assert(settled(q) == settled(p));
    if p.len() > 1 && (p.last() == '/' || (p.last() == '.' && p[p.len() - 2] == '/')) {
        a_slash_at_the_end_says_nothing(p.drop_last());
    }
}

/// What is joined comes apart again: the last name of a joined path is the name that was
/// joined, and above it is the path that it was joined to.
pub proof fn a_joined_name_is_found_again(base: Seq<char>, name: Seq<char>, other: Seq<char>)
    requires
        is_one_name(name),
    ensures
        file_name(join(base, name)) == Some(name),
        parent(join(base, name)) == Some(settled(base)),
        with_file_name(join(base, name), other) == join(settled(base), other),
{
    let front = if base.len() == 0 || base.last() == '/' {
        base
    } else {
        base.push('/')
    };
    if name[0] == '/' {
        assert(name.contains(name[0]));
    }
    let p = join(base, name);
    assert(p == front + name);
    lemma_name_is_settled(front, name);
    lemma_last_piece(front, name);
    if base.len() > 0 {
        a_slash_at_the_end_says_nothing(base);
    }
    if p == root() {
        assert(p[p.len() - 1] == name.last());
        assert(name.contains(name.last()));
    }
}

/// A path with the name replaced is beside the one it was: it has the same parent and the
/// new name.
pub proof fn a_replaced_name_stays_in_its_folder(
    base: Seq<char>,
    name: Seq<char>,
    other: Seq<char>,
)
    requires
        is_one_name(name),
        is_one_name(other),
    ensures
        file_name(with_file_name(join(base, name), other)) == Some(other),
        parent(with_file_name(join(base, name), other)) == parent(join(base, name)),
{
    a_joined_name_is_found_again(base, name, other);
    a_joined_name_is_found_again(settled(base), other, other);
    if base.len() > 0 {
        a_slash_at_the_end_says_nothing(base);
    }
}

/// A path that starts at the root stands for itself, whatever it is joined to.
pub proof fn a_path_from_the_root_stands_for_itself(base: Seq<char>, rel: Seq<char>)
    ensures
        join(base, seq!['/'] + rel) == seq!['/'] + rel,
{
}

proof fn lemma_last_dot(n: Seq<char>, s: Seq<char>, e: Seq<char>)
    requires
        n == s + seq!['.'] + e,
        !e.contains('.'),
    ensures
        last_dot(n) == s.len(),
    decreases e.len(),
{
    if e.len() == 0 {
        assert(n.last() == '.');
    } else {
        assert(e.contains(e.last()));
        assert(n.last() == e.last());
        let f = e.drop_last();
        assert forall|c: char| f.contains(c) implies e.contains(c) by {
            let i = choose|i: int| 0 <= i < f.len() && f[i] == c;
            assert(e[i] == c);
        }
        assert(n.drop_last() =~= s + seq!['.'] + f);
        lemma_last_dot(n.drop_last(), s, f);
    }
}

proof fn lemma_no_dot(n: Seq<char>)
    requires
        !n.contains('.'),
    ensures
        last_dot(n) == -1,
    decreases n.len(),
{
    if n.len() > 0 {
        assert(n.contains(n.last()));
        let f = n.drop_last();
        assert forall|c: char| f.contains(c) implies n.contains(c) by {
            let i = choose|i: int| 0 <= i < f.len() && f[i] == c;
            assert(n[i] == c);
        }
        lemma_no_dot(f);
    }
}

/// A name is split at its last dot: the stem before it, the extension behind it. A name
/// without a dot, or with none but at its start, is all stem.
pub proof fn a_name_is_split_at_its_last_dot(base: Seq<char>, s: Seq<char>, e: Seq<char>)
    requires
        !s.contains('/'),
        !e.contains('/'),
        !e.contains('.'),
    ensures
        s.len() > 0 && e.len() > 0 ==> {
            let p = join(base, s + seq!['.'] + e);
            &&& file_name(p) == Some(s + seq!['.'] + e)
            &&& file_stem(p) == Some(s)
            &&& extension(p) == Some(e)
        },
        e.len() > 0 ==> file_stem(join(base, e)) == Some(e) && extension(join(base, e)) is None,
        e.len() > 0 ==> file_stem(join(base, seq!['.'] + e)) == Some(seq!['.'] + e) && extension(
            join(base, seq!['.'] + e),
        ) is None,
{
    if e.len() > 0 {
        assert(e.contains(e[0]));
        assert(e != seq!['.']) by {
            assert(seq!['.'][0] == '.');
        }
        assert(e != seq!['.', '.']) by {
            assert(seq!['.', '.'][0] == '.');
        }
        a_joined_name_is_found_again(base, e, e);
        lemma_no_dot(e);
        let h = seq!['.'] + e;
        assert(!h.contains('/')) by {
            if h.contains('/') {
                let i = choose|i: int| 0 <= i < h.len() && h[i] == '/';
                assert(e[i - 1] == '/');
            }
        }
        assert(h[1] == e[0]);
        assert(is_one_name(h));
        a_joined_name_is_found_again(base, h, h);
        assert(h =~= Seq::<char>::empty() + seq!['.'] + e);
        lemma_last_dot(h, Seq::empty(), e);
        if s.len() > 0 {
            let n = s + seq!['.'] + e;
            assert(!n.contains('/')) by {
                if n.contains('/') {
                    let i = choose|i: int| 0 <= i < n.len() && n[i] == '/';
                    if i < s.len() {
                        assert(s[i] == '/');
                    } else if i > s.len() {
                        assert(e[i - s.len() - 1] == '/');
                    }
                }
            }
            assert(n.last() == e.last());
            assert(e.contains(e.last()));
            assert(is_one_name(n));
            a_joined_name_is_found_again(base, n, n);
            lemma_last_dot(n, s, e);
            assert(n.take(s.len() as int) =~= s);
            assert(n.skip(s.len() as int + 1) =~= e);
        }
    }
}

proof fn lemma_split_with_name(a: Seq<char>, name: Seq<char>)
    requires
        !name.contains('/'),
    ensures
        split_on(a.push('/') + name, '/') == split_on(a, '/').push(name),
    decreases name.len(),
{
    if name.len() == 0 {
        assert(a.push('/') + name =~= a.push('/'));
        assert(a.push('/').drop_last() =~= a);
        assert(name =~= Seq::empty());
    } else {
        let f = name.drop_last();
        assert(name.contains(name.last()));
        assert forall|c: char| f.contains(c) implies name.contains(c) by {
            let i = choose|i: int| 0 <= i < f.len() && f[i] == c;
            assert(name[i] == c);
        }
        lemma_split_with_name(a, f);
        assert((a.push('/') + name).drop_last() =~= a.push('/') + f);
        let before = split_on(a, '/');
        assert(before.push(f).drop_last() =~= before);
        assert(f.push(name.last()) =~= name);
    }
}

/// The components of a path are those of the folder and the name in it; so two names in one
/// folder are the same place only where they are the same name, and a slash at the end or a
/// `.` in between changes no place.
pub proof fn components_are_those_of_the_folder_and_the_name(
    base: Seq<char>,
    name: Seq<char>,
    other: Seq<char>,
)
    requires
        base.len() > 0,
        is_one_name(name),
        is_one_name(other),
        base.last() != '/',
    ensures
        components(join(base, name)) == components(base).push(name),
        same_place(join(base, name), join(base, other)) <==> name == other,
        components(base.push('/')) == components(base),
        components(base.push('/').push('.')) == components(base),
{
    reveal(Seq::filter);
    let p = |piece: Seq<char>| counts(piece);
    let pieces = split_on(base, '/');
    let none = Seq::<char>::empty();
    let dot = seq!['.'];
    assert(name.contains(name[0]));
    assert(other.contains(other[0]));
    lemma_split_with_name(base, name);
    lemma_split_with_name(base, other);
    lemma_split_with_name(base, none);
    assert(!dot.contains('/')) by {
        if dot.contains('/') {
            let i = choose|i: int| 0 <= i < dot.len() && dot[i] == '/';
        }
    }
    lemma_split_with_name(base, dot);
    assert(base.push('/') + none =~= base.push('/'));
    assert(base.push('/') + dot =~= base.push('/').push('.'));
    assert(pieces.push(name).drop_last() =~= pieces);
    assert(pieces.push(other).drop_last() =~= pieces);
    assert(pieces.push(none).drop_last() =~= pieces);
    assert(pieces.push(dot).drop_last() =~= pieces);
    assert(components(join(base, name)) == pieces.filter(p).push(name));
    assert(components(join(base, other)) == pieces.filter(p).push(other));
    if components(join(base, name)) == components(join(base, other)) {
        assert(pieces.filter(p).push(name).last() == pieces.filter(p).push(other).last());
    }
    assert(join(base, name)[0] == base[0]);
    assert(join(base, other)[0] == base[0]);
    split_on_nonempty(base, '/');
    assert(pieces.push(name)[0] == pieces[0]);
    assert(pieces.push(other)[0] == pieces[0]);
}

/// A path from the root is never the same place as one that is not.
pub proof fn a_path_from_the_root_is_another_place(p: Seq<char>, q: Seq<char>)
    requires
        q.len() == 0 || q[0] != '/',
    ensures
        !same_place(seq!['/'] + p, q),
        !same_place(q, seq!['/'] + p),
        same_place(p, p),
{
    assert((seq!['/'] + p)[0] == '/');
}

} // verus!
