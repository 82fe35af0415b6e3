//! Loop structure shared by operator sequences and IR sequences: which
//! positions open a loop, which close one, and how they pair up.
use vstd::prelude::*;

verus! {

/// The part an instruction plays in loop structure.
pub enum Bracket {
    Open,
    Close,
    Plain,
}

/// The stack of still-open loop starts after scanning the first `n` entries of
/// `b`, innermost last; `None` once a loop end has been met with no open loop.
pub open spec fn open_stack(b: Seq<Bracket>, n: nat) -> Option<Seq<int>>
    decreases n,
{
    if n == 0 {
        Some(Seq::empty())
    } else {
        match open_stack(b, (n - 1) as nat) {
            None => None,
            Some(st) => match b[n - 1] {
                Bracket::Open => Some(st.push(n - 1)),
                Bracket::Close => if st.len() == 0 {
                    None
                } else {
                    Some(st.drop_last())
                },
                Bracket::Plain => Some(st),
            },
        }
    }
}

/// Loop starts mapped to their matching ends, among the first `n` entries.
pub open spec fn ends_of(b: Seq<Bracket>, n: nat) -> Map<int, int>
    decreases n,
{
    if n == 0 {
        Map::empty()
    } else {
        let m = ends_of(b, (n - 1) as nat);
        match open_stack(b, (n - 1) as nat) {
            Some(st) => if b[n - 1] is Close && st.len() > 0 {
                m.insert(st.last(), n - 1)
            } else {
                m
            },
            None => m,
        }
    }
}

/// Loop ends mapped to their matching starts, among the first `n` entries.
pub open spec fn starts_of(b: Seq<Bracket>, n: nat) -> Map<int, int>
    decreases n,
{
    if n == 0 {
        Map::empty()
    } else {
        let m = starts_of(b, (n - 1) as nat);
        match open_stack(b, (n - 1) as nat) {
            Some(st) => if b[n - 1] is Close && st.len() > 0 {
                m.insert(n - 1, st.last())
            } else {
                m
            },
            None => m,
        }
    }
}

/// Every loop start has a matching end and every end a matching start.
pub open spec fn balanced(b: Seq<Bracket>) -> bool {
    open_stack(b, b.len()) == Some(Seq::<int>::empty())
}

/// The forward table of a whole sequence: start position to end position.
pub open spec fn loop_ends(b: Seq<Bracket>) -> Map<int, int> {
    ends_of(b, b.len())
}

/// The backward table of a whole sequence: end position to start position.
pub open spec fn loop_starts(b: Seq<Bracket>) -> Map<int, int> {
    starts_of(b, b.len())
}

/// What holds of the tables after any prefix that has not failed.
pub open spec fn prefix_tables_ok(b: Seq<Bracket>, n: nat, st: Seq<int>) -> bool {
    let fwd = ends_of(b, n);
    let bwd = starts_of(b, n);
    &&& forall|t: int| 0 <= t < st.len() ==> 0 <= #[trigger] st[t] < n && b[st[t]] is Open
    &&& forall|t: int, u: int| 0 <= t < u < st.len() ==> #[trigger] st[t] < #[trigger] st[u]
    &&& forall|i: int|
        #![trigger fwd.contains_key(i)]
        fwd.contains_key(i) ==> {
            &&& 0 <= i < fwd[i] < n
            &&& b[i] is Open
            &&& b[fwd[i]] is Close
            &&& bwd.contains_key(fwd[i])
            &&& bwd[fwd[i]] == i
        }
    &&& forall|j: int|
        #![trigger bwd.contains_key(j)]
        bwd.contains_key(j) ==> {
            &&& 0 <= j < n
            &&& b[j] is Close
            &&& fwd.contains_key(bwd[j])
            &&& fwd[bwd[j]] == j
        }
    &&& forall|i: int|
        0 <= i < n && #[trigger] b[i] is Open ==> (fwd.contains_key(i) <==> !st.contains(i))
    &&& forall|j: int| 0 <= j < n && #[trigger] b[j] is Close ==> bwd.contains_key(j)
}

/// The facts of `prefix_tables_ok` hold after every prefix that has not failed.
#[verifier::rlimit(40)]
pub proof fn lemma_prefix_tables(b: Seq<Bracket>, n: nat)
    requires
        n <= b.len(),
        open_stack(b, n) is Some,
    ensures
        prefix_tables_ok(b, n, open_stack(b, n).unwrap()),
    decreases n,
{
    if n > 0 {
        let p = (n - 1) as nat;
        lemma_prefix_tables(b, p);
        let st = open_stack(b, p).unwrap();
        let fwd = ends_of(b, p);
        let bwd = starts_of(b, p);
        let st2 = open_stack(b, n).unwrap();
        let fwd2 = ends_of(b, n);
        let bwd2 = starts_of(b, n);
        let k = n - 1;
        match b[k] {
            Bracket::Open => {
                assert(st2 == st.push(k));
                assert(!fwd.contains_key(k));
                assert forall|i: int|
                    0 <= i < n && #[trigger] b[i] is Open implies (fwd2.contains_key(i)
                        <==> !st2.contains(i)) by {
                    if i < k {
                        assert(st2.contains(i) <==> st.contains(i)) by {
                            if st.contains(i) {
                                let t = choose|t: int| 0 <= t < st.len() && st[t] == i;
                                assert(st2[t] == i);
                            }
                            if st2.contains(i) {
                                let t = choose|t: int| 0 <= t < st2.len() && st2[t] == i;
                                if t < st.len() {
                                    assert(st[t] == i);
                                }
                            }
                        }
                    } else {
                        assert(st2[st.len() as int] == k);
                    }
                }
            },
            Bracket::Close => {
                if st.len() > 0 {
                    let o = st.last();
                    assert(st2 == st.drop_last());
                    assert(st.contains(o));
                    assert(!fwd.contains_key(o));
                    assert(fwd2 == fwd.insert(o, k));
                    assert(bwd2 == bwd.insert(k, o));
                    assert(!bwd.contains_key(k));
                    assert forall|i: int|
                        0 <= i < n && #[trigger] b[i] is Open implies (fwd2.contains_key(i)
                            <==> !st2.contains(i)) by {
                        if i == o {
                            if st2.contains(i) {
                                let t = choose|t: int| 0 <= t < st2.len() && st2[t] == i;
                                assert(st[t] < st[st.len() - 1]);
                            }
                        } else {
                            assert(st2.contains(i) <==> st.contains(i)) by {
                                if st.contains(i) {
                                    let t = choose|t: int| 0 <= t < st.len() && st[t] == i;
                                    assert(t != st.len() - 1);
                                    assert(st2[t] == i);
                                }
                                if st2.contains(i) {
                                    let t = choose|t: int| 0 <= t < st2.len() && st2[t] == i;
                                    assert(st[t] == i);
                                }
                            }
                        }
                    }
                }
            },
            Bracket::Plain => {
                assert(st2 == st);
            },
        }
    }
}

/// A balanced sequence has two tables that are each other's inverse: each
/// loop start is a key of the forward table exactly once, each loop end a key
/// of the backward table exactly once, and a start always precedes its end.
pub proof fn lemma_jump_tables_inverse(b: Seq<Bracket>)
    requires
        balanced(b),
    ensures
        forall|i: int|
            #![trigger loop_ends(b).contains_key(i)]
            loop_ends(b).contains_key(i) <==> 0 <= i < b.len() && b[i] is Open,
        forall|j: int|
            #![trigger loop_starts(b).contains_key(j)]
            loop_starts(b).contains_key(j) <==> 0 <= j < b.len() && b[j] is Close,
        forall|i: int|
            #![trigger loop_ends(b).contains_key(i)]
            loop_ends(b).contains_key(i) ==> {
                &&& i < loop_ends(b)[i] < b.len()
                &&& b[loop_ends(b)[i]] is Close
                &&& loop_starts(b).contains_key(loop_ends(b)[i])
                &&& loop_starts(b)[loop_ends(b)[i]] == i
            },
        forall|j: int|
            #![trigger loop_starts(b).contains_key(j)]
            loop_starts(b).contains_key(j) ==> {
                &&& loop_ends(b).contains_key(loop_starts(b)[j])
                &&& loop_ends(b)[loop_starts(b)[j]] == j
            },
{
    lemma_prefix_tables(b, b.len());
    let st = open_stack(b, b.len()).unwrap();
    assert forall|i: int| 0 <= i < b.len() && b[i] is Open implies loop_ends(b).contains_key(
        i,
    ) by {
        assert(b[i] is Open);
        assert(!st.contains(i));
    }
}

/// Once a prefix has failed, every longer prefix has failed too.
pub proof fn lemma_failure_persists(b: Seq<Bracket>, n: nat, m: nat)
    requires
        n <= m,
        open_stack(b, n) is None,
    ensures
        open_stack(b, m) is None,
    decreases m - n,
{
    if n < m {
        lemma_failure_persists(b, n, (m - 1) as nat);
    }
}

/// Loop starts minus loop ends.
pub open spec fn depth(b: Seq<Bracket>) -> int
    decreases b.len(),
{
    if b.len() == 0 {
        0
    } else {
        depth(b.drop_last()) + match b.last() {
            Bracket::Open => 1int,
            Bracket::Close => -1int,
            Bracket::Plain => 0int,
        }
    }
}

/// No prefix closes more loops than it opens.
pub open spec fn never_negative(b: Seq<Bracket>) -> bool
    decreases b.len(),
{
    b.len() == 0 || (never_negative(b.drop_last()) && depth(b) >= 0)
}

/// The scan of a prefix depends on that prefix alone.
proof fn lemma_open_stack_prefix(b: Seq<Bracket>, c: Seq<Bracket>, n: nat)
    requires
        n <= b.len(),
        n <= c.len(),
        b.take(n as int) == c.take(n as int),
    ensures
        open_stack(b, n) == open_stack(c, n),
    decreases n,
{
    if n > 0 {
        assert(b.take(n - 1) =~= b.take(n as int).take(n - 1));
        assert(c.take(n - 1) =~= c.take(n as int).take(n - 1));
        lemma_open_stack_prefix(b, c, (n - 1) as nat);
        assert(b[n - 1] == b.take(n as int)[n - 1]);
        assert(c[n - 1] == c.take(n as int)[n - 1]);
    }
}

/// The scan succeeds exactly when no prefix goes below zero, and then holds
/// as many open loops as the depth.
pub proof fn lemma_open_stack_depth(b: Seq<Bracket>)
    ensures
        open_stack(b, b.len()) is Some <==> never_negative(b),
        open_stack(b, b.len()) is Some ==> open_stack(b, b.len()).unwrap().len() == depth(b),
    decreases b.len(),
{
    if b.len() > 0 {
        let p = b.drop_last();
        lemma_open_stack_depth(p);
        assert(b.take(p.len() as int) =~= p.take(p.len() as int));
        lemma_open_stack_prefix(b, p, p.len());
    }
}

/// Balanced means never below zero and back to zero at the end.
pub proof fn lemma_balanced_depth(b: Seq<Bracket>)
    ensures
        balanced(b) <==> never_negative(b) && depth(b) == 0,
{
    lemma_open_stack_depth(b);
    if never_negative(b) && depth(b) == 0 {
        assert(open_stack(b, b.len()).unwrap() =~= Seq::<int>::empty());
    }
}

} // verus!
