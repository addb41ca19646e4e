//! Unix path text: what `PathBuf::join` and `Path::components` do, on strings.
use vstd::prelude::*;
use crate::text::{chars_of, string_of};

verus! {

/// A path is absolute when it starts at the root directory.
pub open spec fn is_absolute(p: Seq<char>) -> bool {
    p.len() > 0 && p[0] == '/'
}

/// `base` joined with `p`: an absolute `p` replaces `base`; otherwise `p` is
/// appended, with a `/` in between unless `base` is empty or already ends in one.
pub open spec fn joined_path(base: Seq<char>, p: Seq<char>) -> Seq<char> {
    if is_absolute(p) {
        p
    } else if base.len() > 0 && base.last() != '/' {
        base + seq!['/'] + p
    } else {
        base + p
    }
}

/// The pieces of `p` between its `/` separators, empty ones included, in order.
pub open spec fn pieces(p: Seq<char>) -> Seq<Seq<char>>
    decreases p.len(),
{
    if p.len() == 0 {
        seq![Seq::empty()]
    } else {
        let prev = pieces(p.drop_last());
        if p.last() == '/' {
            prev.push(Seq::empty())
        } else {
            prev.update(prev.len() - 1, prev.last().push(p.last()))
        }
    }
}

/// A piece names a directory entry unless it is empty or `.`.
pub open spec fn is_named(piece: Seq<char>) -> bool {
    piece.len() > 0 && piece != seq!['.']
}

/// The pieces of `segs` that name an entry, in order.
pub open spec fn named(segs: Seq<Seq<char>>) -> Seq<Seq<char>>
    decreases segs.len(),
{
    if segs.len() == 0 {
        Seq::empty()
    } else if is_named(segs.last()) {
        named(segs.drop_last()).push(segs.last())
    } else {
        named(segs.drop_last())
    }
}

/// `segs` written one after the other, separated by `/`.
pub open spec fn slash_joined(segs: Seq<Seq<char>>) -> Seq<char>
    decreases segs.len(),
{
    if segs.len() == 0 {
        Seq::empty()
    } else if segs.len() == 1 {
        segs[0]
    } else {
        slash_joined(segs.drop_last()) + seq!['/'] + segs.last()
    }
}

/// `p` without empty and `.` components: a leading `/` is kept, the named
/// components follow, separated by single slashes, with no trailing slash.
pub open spec fn normal_form(p: Seq<char>) -> Seq<char> {
    if is_absolute(p) {
        seq!['/'] + slash_joined(named(pieces(p)))
    } else {
        slash_joined(named(pieces(p)))
    }
}

pub proof fn lemma_pieces_nonempty(p: Seq<char>)
    ensures
        pieces(p).len() >= 1,
    decreases p.len(),
{
    if p.len() > 0 {
        lemma_pieces_nonempty(p.drop_last());
    }
}

pub proof fn lemma_slash_joined_push(segs: Seq<Seq<char>>, x: Seq<char>)
    ensures
        slash_joined(segs.push(x)) == (if segs.len() == 0 {
            x
        } else {
            slash_joined(segs) + seq!['/'] + x
        }),
{
    assert(segs.push(x).drop_last() == segs);
    if segs.len() == 0 {
        assert(segs.push(x)[0] == x);
    }
}

pub proof fn lemma_named_unfold(segs: Seq<Seq<char>>)
    requires
        segs.len() >= 1,
    ensures
        named(segs) == (if is_named(segs.last()) {
            named(segs.drop_last()).push(segs.last())
        } else {
            named(segs.drop_last())
        }),
{
}

/// `s` holds no `/`.
pub open spec fn slash_free(s: Seq<char>) -> bool {
    forall|k: int| 0 <= k < s.len() ==> s[k] != '/'
}

proof fn lemma_pieces_split(a: Seq<char>, b: Seq<char>)
    ensures
        pieces(a + seq!['/'] + b) == pieces(a) + pieces(b),
    decreases b.len(),
{
    let x = a + seq!['/'] + b;
    if b.len() == 0 {
        assert(x.drop_last() == a);
        assert(x.last() == '/');
        assert(pieces(b) == seq![Seq::<char>::empty()]);
        assert(pieces(a).push(Seq::empty()) == pieces(a) + seq![Seq::<char>::empty()]);
    } else {
        assert(x.drop_last() == a + seq!['/'] + b.drop_last());
        assert(x.last() == b.last());
        lemma_pieces_split(a, b.drop_last());
        let pa = pieces(a);
        let pb = pieces(b.drop_last());
        lemma_pieces_nonempty(b.drop_last());
        lemma_pieces_nonempty(a);
        let prev = pa + pb;
        if b.last() == '/' {
            assert(prev.push(Seq::empty()) == pa + pb.push(Seq::empty()));
        } else {
            assert(prev.last() == pb.last());
            assert(prev.update(prev.len() - 1, prev.last().push(b.last())) == pa + pb.update(
                pb.len() - 1,
                pb.last().push(b.last()),
            ));
        }
    }
}

proof fn lemma_pieces_slash_free(s: Seq<char>)
    requires
        slash_free(s),
    ensures
        pieces(s) == seq![s],
    decreases s.len(),
{
    if s.len() == 0 {
        assert(s == Seq::<char>::empty());
    } else {
        assert(slash_free(s.drop_last()));
        assert(s.last() == s[s.len() - 1]);
        lemma_pieces_slash_free(s.drop_last());
        assert(s.drop_last().push(s.last()) == s);
        assert(seq![s.drop_last()].update(0, s.drop_last().push(s.last())) == seq![s]);
    }
}

proof fn lemma_pieces_are_slash_free(p: Seq<char>)
    ensures
        forall|i: int| 0 <= i < pieces(p).len() ==> slash_free(#[trigger] pieces(p)[i]),
    decreases p.len(),
{
    if p.len() > 0 {
        lemma_pieces_are_slash_free(p.drop_last());
        lemma_pieces_nonempty(p.drop_last());
        let prev = pieces(p.drop_last());
        if p.last() != '/' {
            assert(slash_free(prev.last()));
            assert(slash_free(prev.last().push(p.last())));
        }
    }
}

proof fn lemma_named_parts(segs: Seq<Seq<char>>)
    ensures
        forall|i: int|
            0 <= i < named(segs).len() ==> is_named(#[trigger] named(segs)[i]) && exists|j: int|
                0 <= j < segs.len() && segs[j] == named(segs)[i],
    decreases segs.len(),
{
    if segs.len() > 0 {
        lemma_named_parts(segs.drop_last());
        let d = segs.drop_last();
        assert forall|i: int| 0 <= i < named(segs).len() implies is_named(
            #[trigger] named(segs)[i],
        ) && exists|j: int| 0 <= j < segs.len() && segs[j] == named(segs)[i] by {
            if i < named(d).len() {
                assert(named(segs)[i] == named(d)[i]);
                let j = choose|j: int| 0 <= j < d.len() && d[j] == named(d)[i];
                assert(segs[j] == d[j]);
            } else {
                assert(named(segs)[i] == segs.last());
                assert(segs[segs.len() - 1] == segs.last());
            }
        }
    }
}

proof fn lemma_named_concat(a: Seq<Seq<char>>, b: Seq<Seq<char>>)
    ensures
        named(a + b) == named(a) + named(b),
    decreases b.len(),
{
    if b.len() == 0 {
        assert(a + b == a);
    } else {
        lemma_named_concat(a, b.drop_last());
        assert((a + b).drop_last() == a + b.drop_last());
        assert((a + b).last() == b.last());
        assert((named(a) + named(b.drop_last())).push(b.last()) == named(a) + named(
            b.drop_last(),
        ).push(b.last()));
    }
}

proof fn lemma_named_all_named(segs: Seq<Seq<char>>)
    requires
        forall|i: int| 0 <= i < segs.len() ==> is_named(#[trigger] segs[i]),
    ensures
        named(segs) == segs,
    decreases segs.len(),
{
    if segs.len() > 0 {
        lemma_named_all_named(segs.drop_last());
        assert(segs.drop_last().push(segs.last()) == segs);
    }
}

proof fn lemma_pieces_slash_joined(segs: Seq<Seq<char>>)
    requires
        segs.len() > 0,
        forall|i: int| 0 <= i < segs.len() ==> slash_free(#[trigger] segs[i]),
    ensures
        pieces(slash_joined(segs)) == segs,
    decreases segs.len(),
{
    if segs.len() == 1 {
        lemma_pieces_slash_free(segs[0]);
        assert(seq![segs[0]] == segs);
    } else {
        let d = segs.drop_last();
        lemma_pieces_slash_joined(d);
        lemma_pieces_split(slash_joined(d), segs.last());
        lemma_pieces_slash_free(segs.last());
        assert(d + seq![segs.last()] == segs);
    }
}

/// The components of the normal form are those of `p` with the empty and `.`
/// ones dropped, all others kept in order (`..` included), and the normal
/// form is absolute exactly when `p` is; so normalizing twice changes nothing.
pub proof fn law_normal_form_components(p: Seq<char>)
    ensures
        named(pieces(normal_form(p))) == named(pieces(p)),
        is_absolute(normal_form(p)) == is_absolute(p),
        normal_form(normal_form(p)) == normal_form(p),
{
    let ns = named(pieces(p));
    lemma_named_parts(pieces(p));
    lemma_pieces_are_slash_free(p);
    assert forall|i: int| 0 <= i < ns.len() implies slash_free(#[trigger] ns[i])
        && is_named(ns[i]) by {
        let j = choose|j: int| 0 <= j < pieces(p).len() && pieces(p)[j] == ns[i];
        assert(slash_free(pieces(p)[j]));
    }
    lemma_named_all_named(ns);
    let sj = slash_joined(ns);
    let empty_piece = seq![Seq::<char>::empty()];
    assert(pieces(Seq::<char>::empty()) == empty_piece);
    assert(named(empty_piece) == Seq::<Seq<char>>::empty()) by {
        assert(empty_piece.drop_last() == Seq::<Seq<char>>::empty());
        assert(!is_named(empty_piece.last()));
        assert(named(Seq::<Seq<char>>::empty()) == Seq::<Seq<char>>::empty());
        lemma_named_unfold(empty_piece);
    }
    if ns.len() > 0 {
        lemma_pieces_slash_joined(ns);
    } else {
        assert(sj == Seq::<char>::empty());
    }
    assert(named(pieces(sj)) == ns) by {
        if ns.len() == 0 {
        }
    }
    if is_absolute(p) {
        let nf = seq!['/'] + sj;
        assert(nf == Seq::<char>::empty() + seq!['/'] + sj);
        lemma_pieces_split(Seq::empty(), sj);
        lemma_named_concat(empty_piece, pieces(sj));
        assert(Seq::<Seq<char>>::empty() + ns == ns);
    } else {
        if sj.len() > 0 && sj[0] == '/' {
            assert(sj == Seq::<char>::empty() + seq!['/'] + sj.drop_first());
            lemma_pieces_split(Seq::empty(), sj.drop_first());
            lemma_pieces_nonempty(sj.drop_first());
            assert(pieces(sj)[0] == Seq::<char>::empty());
            assert(ns.len() > 0);
            assert(is_named(ns[0]));
        }
    }
}

/// Whether `p` is absolute.
pub fn path_is_absolute(p: &str) -> (r: bool)
    ensures
        r == is_absolute(p@),
{
    let v = chars_of(p);
    v.len() > 0 && v[0] == '/'
}

/// `base` joined with `p`, as `Path::join` does on Unix.
pub fn join_path(base: &str, p: &str) -> (r: String)
    ensures
        r@ == joined_path(base@, p@),
{
    let bv = chars_of(base);
    let pv = chars_of(p);
    let mut out = bv.clone();
    if pv.len() > 0 && pv[0] == '/' {
        return string_of(&pv);
    }
    if bv.len() > 0 && bv[bv.len() - 1] != '/' {
        out.push('/');
    }
    let mut i: usize = 0;
    let ghost start = out@;
    while i < pv.len()
        invariant
            i <= pv.len(),
            pv@ == p@,
            out@ == start + pv@.subrange(0, i as int),
        decreases pv.len() - i,
    {
        out.push(pv[i]);
        assert(pv@.subrange(0, i + 1) == pv@.subrange(0, i as int).push(pv@[i as int]));
        i = i + 1;
    }
    assert(pv@.subrange(0, pv.len() as int) == pv@);
    string_of(&out)
}

/// Appends `cur` as one more named component to `out`, which holds `count`
/// components so far.
fn push_component(out: &mut Vec<char>, cur: &Vec<char>, count: usize)
    requires
        count == 0 ==> old(out)@.len() == 0,
    ensures
        count == 0 ==> final(out)@ == cur@,
        count > 0 ==> final(out)@ == old(out)@ + seq!['/'] + cur@,
{
    if count > 0 {
        out.push('/');
    }
    let ghost start = out@;
    let mut i: usize = 0;
    while i < cur.len()
        invariant
            i <= cur.len(),
            out@ == start + cur@.subrange(0, i as int),
        decreases cur.len() - i,
    {
        out.push(cur[i]);
        assert(cur@.subrange(0, i + 1) == cur@.subrange(0, i as int).push(cur@[i as int]));
        i = i + 1;
    }
    assert(cur@.subrange(0, cur.len() as int) == cur@);
}

/// Whether `cur` names an entry.
fn names_entry(cur: &Vec<char>) -> (r: bool)
    ensures
        r == is_named(cur@),
{
    if cur.len() == 0 {
        false
    } else if cur.len() == 1 && cur[0] == '.' {
        assert(cur@ == seq!['.']);
        false
    } else {
        assert(cur@ != seq!['.'] ) by {
            if cur.len() == 1 {
                assert(cur@[0] != seq!['.'][0]);
            }
        }
        true
    }
}

/// `p` in normal form: empty and `.` components dropped, separators collapsed,
/// no trailing slash.
pub fn normalize_path(p: &str) -> (r: String)
    ensures
        r@ == normal_form(p@),
        normal_form(r@) == r@,
{
    proof {
        law_normal_form_components(p@);
    }
    let pv = chars_of(p);
    let mut out: Vec<char> = Vec::new();
    let mut cur: Vec<char> = Vec::new();
    let mut count: usize = 0;
    let mut i: usize = 0;
    assert(pv@.take(0) == Seq::<char>::empty());
    while i < pv.len()
        invariant
            i <= pv.len(),
            pv@ == p@,
            pieces(pv@.take(i as int)).len() >= 1,
            cur@ == pieces(pv@.take(i as int)).last(),
            count == named(pieces(pv@.take(i as int)).drop_last()).len(),
            count <= i,
            out@ == slash_joined(named(pieces(pv@.take(i as int)).drop_last())),
            count == 0 ==> out@.len() == 0,
        decreases pv.len() - i,
    {
        let ghost pre = pv@.take(i as int);
        let ghost pp = pieces(pre);
        let ghost next = pv@.take(i + 1);
        assert(next.drop_last() == pre);
        assert(next.last() == pv@[i as int]);
        proof {
            lemma_pieces_nonempty(next);
        }
        if pv[i] == '/' {
            assert(pieces(next) == pp.push(Seq::empty()));
            assert(pieces(next).drop_last() == pp);
            assert(pp == pp.drop_last().push(pp.last()));
            proof {
                lemma_named_unfold(pp);
                lemma_slash_joined_push(named(pp.drop_last()), pp.last());
            }
            if names_entry(&cur) {
                push_component(&mut out, &cur, count);
                count = count + 1;
            }
            cur = Vec::new();
        } else {
            let ghost np = pp.update(pp.len() - 1, pp.last().push(pv@[i as int]));
            assert(pieces(next) == np);
            assert(np.drop_last() == pp.drop_last());
            cur.push(pv[i]);
        }
        i = i + 1;
    }
    assert(pv@.take(pv.len() as int) == pv@);
    let ghost pp = pieces(pv@);
    assert(pp == pp.drop_last().push(pp.last()));
    proof {
        lemma_named_unfold(pp);
        lemma_slash_joined_push(named(pp.drop_last()), pp.last());
    }
    if names_entry(&cur) {
        push_component(&mut out, &cur, count);
    }
    assert(out@ == slash_joined(named(pp)));
    if pv.len() > 0 && pv[0] == '/' {
        let mut full: Vec<char> = Vec::new();
        full.push('/');
        full.append(&mut out);
        string_of(&full)
    } else {
        string_of(&out)
    }
}

} // verus!
