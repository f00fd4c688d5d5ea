//! The matcher's machinery: threads with capture slots, the deterministic
//! order used to deduplicate them, the candidate preference, and the
//! mathematical description of the thread-set simulation (stepping over a
//! byte, closing under empty and capture edges, and the whole run).
//!
//! The closure worklist has no syntactic termination measure, so its
//! description takes a fuel parameter; the result is monotone in the fuel,
//! which makes the described outcome unique. `run_rel` relates a pattern and
//! an input to that unique outcome.

use vstd::prelude::*;

use crate::nfa::LabelM;
use crate::nfa::StateM;
use crate::nfa::states_targets_ok;

verus! {

/// One capture group's slot: optional start and end byte offsets.
pub type GroupSlot = (Option<usize>, Option<usize>);

/// A simulation thread: its NFA state and one capture slot per group
/// (index 0 is unused).
pub struct Thread {
    pub s: usize,
    pub caps: Vec<GroupSlot>,
}

/// The mathematical value of a `Thread`.
#[verifier::ext_equal]
pub struct ThreadM {
    pub s: usize,
    pub caps: Seq<GroupSlot>,
}

impl View for Thread {
    type V = ThreadM;

    open spec fn view(&self) -> ThreadM {
        ThreadM { s: self.s, caps: self.caps@ }
    }
}

impl DeepView for Thread {
    type V = ThreadM;

    open spec fn deep_view(&self) -> ThreadM {
        self.view()
    }
}

/// Every thread's state lies below `nstates` and its capture vector has
/// exactly `ncaps` slots.
pub open spec fn threads_wf(ts: Seq<ThreadM>, nstates: int, ncaps: int) -> bool {
    forall|k: int|
        0 <= k < ts.len() ==> (#[trigger] ts[k]).s < nstates && ts[k].caps.len() == ncaps
}

/// Three-way comparison of optional offsets: absent sorts before present.
pub open spec fn opt_cmp(a: Option<usize>, b: Option<usize>) -> int {
    match (a, b) {
        (None, None) => 0,
        (None, Some(_)) => -1,
        (Some(_), None) => 1,
        (Some(x), Some(y)) => if x < y {
            -1
        } else if x > y {
            1
        } else {
            0
        },
    }
}

/// Three-way comparison of capture slots, start before end.
pub open spec fn slot_cmp(a: GroupSlot, b: GroupSlot) -> int {
    if opt_cmp(a.0, b.0) != 0 {
        opt_cmp(a.0, b.0)
    } else {
        opt_cmp(a.1, b.1)
    }
}

/// Lexicographic three-way comparison of capture vectors from index `i` on;
/// a proper prefix sorts first.
pub open spec fn caps_cmp(a: Seq<GroupSlot>, b: Seq<GroupSlot>, i: int) -> int
    decreases a.len() - i,
{
    if i >= a.len() && i >= b.len() {
        0
    } else if i >= a.len() {
        -1
    } else if i >= b.len() {
        1
    } else if slot_cmp(a[i], b[i]) != 0 {
        slot_cmp(a[i], b[i])
    } else {
        caps_cmp(a, b, i + 1)
    }
}

/// The total order on threads used for deduplication: by state, then by
/// capture vector; two threads compare equal exactly when they are equal.
pub open spec fn thread_cmp(a: ThreadM, b: ThreadM) -> int {
    if a.s < b.s {
        -1
    } else if a.s > b.s {
        1
    } else {
        caps_cmp(a.caps, b.caps, 0)
    }
}

/// Inserts a thread into a sorted, duplicate-free sequence, dropping it if
/// an equal thread is already present.
pub open spec fn insert_thread(x: ThreadM, s: Seq<ThreadM>) -> Seq<ThreadM>
    decreases s.len(),
{
    if s.len() == 0 {
        seq![x]
    } else {
        let c = thread_cmp(x, s[0]);
        if c < 0 {
            seq![x].add(s)
        } else if c == 0 {
            s
        } else {
            seq![s[0]].add(insert_thread(x, s.drop_first()))
        }
    }
}

/// Folds `insert_thread` over the input from index `i` on.
pub open spec fn dedup_from(ts: Seq<ThreadM>, i: int, acc: Seq<ThreadM>) -> Seq<ThreadM>
    decreases ts.len() - i,
{
    if i >= ts.len() {
        acc
    } else {
        dedup_from(ts, i + 1, insert_thread(ts[i], acc))
    }
}

/// The canonical form of a thread list: its distinct threads in `thread_cmp`
/// order.
pub open spec fn dedup_spec(ts: Seq<ThreadM>) -> Seq<ThreadM> {
    dedup_from(ts, 0, Seq::empty())
}

/// Where a scan found the insertion point `j`, `insert_thread` either drops
/// the new thread (equal to the one at `j`) or places it at `j`.
pub proof fn lemma_insert_at(s: Seq<ThreadM>, x: ThreadM, j: int)
    requires
        0 <= j <= s.len(),
        forall|k: int| 0 <= k < j ==> thread_cmp(x, #[trigger] s[k]) > 0,
        j < s.len() ==> thread_cmp(x, s[j]) <= 0,
    ensures
        j < s.len() && thread_cmp(x, s[j]) == 0 ==> insert_thread(x, s) == s,
        !(j < s.len() && thread_cmp(x, s[j]) == 0) ==> insert_thread(x, s) =~= s.insert(j, x),
    decreases s.len(),
{
    if s.len() == 0 {
        assert(insert_thread(x, s) =~= s.insert(0, x));
    } else if j == 0 {
        if thread_cmp(x, s[0]) == 0 {
        } else {
            assert(insert_thread(x, s) =~= s.insert(0, x));
        }
    } else {
        let rest = s.drop_first();
        assert(thread_cmp(x, s[0]) > 0);
        assert forall|k: int| 0 <= k < j - 1 implies thread_cmp(x, #[trigger] rest[k]) > 0 by {
            assert(rest[k] == s[k + 1]);
        }
        assert(j - 1 < rest.len() ==> rest[j - 1] == s[j]);
        lemma_insert_at(rest, x, j - 1);
        if j < s.len() && thread_cmp(x, s[j]) == 0 {
            assert(insert_thread(x, rest) == rest);
            assert(seq![s[0]].add(rest) =~= s);
        } else {
            assert(seq![s[0]].add(rest.insert(j - 1, x)) =~= s.insert(j, x));
            assert(insert_thread(x, s) =~= s.insert(j, x));
        }
    }
}

/// Inserting a well-formed thread keeps the list well-formed.
pub proof fn lemma_insert_thread_wf(x: ThreadM, s: Seq<ThreadM>, nstates: int, ncaps: int)
    requires
        x.s < nstates,
        x.caps.len() == ncaps,
        threads_wf(s, nstates, ncaps),
    ensures
        threads_wf(insert_thread(x, s), nstates, ncaps),
    decreases s.len(),
{
    if s.len() == 0 {
    } else {
        let c = thread_cmp(x, s[0]);
        if c < 0 {
        } else if c == 0 {
        } else {
            assert(threads_wf(s.drop_first(), nstates, ncaps)) by {
                assert forall|k: int|
                    0 <= k < s.drop_first().len() implies (#[trigger] s.drop_first()[k]).s
                    < nstates && s.drop_first()[k].caps.len() == ncaps by {
                    assert(s.drop_first()[k] == s[k + 1]);
                }
            }
            lemma_insert_thread_wf(x, s.drop_first(), nstates, ncaps);
            let r = seq![s[0]].add(insert_thread(x, s.drop_first()));
            assert forall|k: int|
                0 <= k < r.len() implies (#[trigger] r[k]).s < nstates && r[k].caps.len()
                == ncaps by {
                if k > 0 {
                    assert(r[k] == insert_thread(x, s.drop_first())[k - 1]);
                }
            }
        }
    }
}

/// Deduplication keeps the list well-formed.
pub proof fn lemma_dedup_from_wf(
    ts: Seq<ThreadM>,
    i: int,
    acc: Seq<ThreadM>,
    nstates: int,
    ncaps: int,
)
    requires
        0 <= i,
        forall|k: int|
            i <= k < ts.len() ==> (#[trigger] ts[k]).s < nstates && ts[k].caps.len() == ncaps,
        threads_wf(acc, nstates, ncaps),
    ensures
        threads_wf(dedup_from(ts, i, acc), nstates, ncaps),
    decreases ts.len() - i,
{
    if i >= ts.len() {
    } else {
        lemma_insert_thread_wf(ts[i], acc, nstates, ncaps);
        lemma_dedup_from_wf(ts, i + 1, insert_thread(ts[i], acc), nstates, ncaps);
    }
}

/// Compares optional offsets, as executable code.
fn opt_cmp_exec(a: Option<usize>, b: Option<usize>) -> (r: i8)
    ensures
        r as int == opt_cmp(a, b),
{
    match (a, b) {
        (None, None) => 0,
        (None, Some(_)) => -1,
        (Some(_), None) => 1,
        (Some(x), Some(y)) => {
            if x < y {
                -1
            } else if x > y {
                1
            } else {
                0
            }
        },
    }
}

/// Compares capture slots, as executable code.
fn slot_cmp_exec(a: GroupSlot, b: GroupSlot) -> (r: i8)
    ensures
        r as int == slot_cmp(a, b),
{
    let c = opt_cmp_exec(a.0, b.0);
    if c != 0 {
        c
    } else {
        opt_cmp_exec(a.1, b.1)
    }
}

/// Compares threads in the deduplication order, as executable code.
fn thread_cmp_exec(a: &Thread, b: &Thread) -> (r: i8)
    ensures
        r as int == thread_cmp(a@, b@),
{
    if a.s < b.s {
        return -1;
    }
    if a.s > b.s {
        return 1;
    }
    let alen = a.caps.len();
    let blen = b.caps.len();
    let mut k: usize = 0;
    while k < alen && k < blen
        invariant
            k <= alen,
            k <= blen,
            alen == a.caps@.len(),
            blen == b.caps@.len(),
            a@.s == b@.s,
            caps_cmp(a.caps@, b.caps@, 0) == caps_cmp(a.caps@, b.caps@, k as int),
        decreases alen - k,
    {
        let c = slot_cmp_exec(a.caps[k], b.caps[k]);
        if c != 0 {
            return c;
        }
        k = k + 1;
    }
    if alen == blen {
        0
    } else if alen < blen {
        -1
    } else {
        1
    }
}

/// Compares two capture vectors for equality, as executable code.
pub(crate) fn caps_eq(a: &Vec<GroupSlot>, b: &Vec<GroupSlot>) -> (r: bool)
    ensures
        r == (a@ == b@),
{
    let alen = a.len();
    let blen = b.len();
    if alen != blen {
        return false;
    }
    let mut k: usize = 0;
    while k < alen
        invariant
            k <= alen,
            alen == a@.len(),
            alen == b@.len(),
            forall|j: int| 0 <= j < k ==> a@[j] == b@[j],
        decreases alen - k,
    {
        if slot_cmp_exec(a[k], b[k]) != 0 {
            proof {
                assert(a@[k as int] != b@[k as int]);
            }
            return false;
        }
        k = k + 1;
    }
    proof {
        assert(a@ =~= b@);
    }
    true
}

/// Whether a byte lies in one of the class ranges, as executable code.
pub(crate) fn class_hit(ranges: &Vec<(u8, u8)>, b: u8) -> (r: bool)
    ensures
        r == crate::matcher::in_ranges(ranges@, b),
{
    let n = ranges.len();
    let mut k: usize = 0;
    while k < n
        invariant
            k <= n,
            n == ranges@.len(),
            forall|j: int| 0 <= j < k ==> !((#[trigger] ranges@[j]).0 <= b && b <= ranges@[j].1),
        decreases n - k,
    {
        let (lo, hi) = ranges[k];
        if lo <= b && b <= hi {
            return true;
        }
        k = k + 1;
    }
    false
}

/// Copies a capture vector.
pub(crate) fn copy_caps(caps: &Vec<GroupSlot>) -> (r: Vec<GroupSlot>)
    ensures
        r@ == caps@,
{
    let mut r: Vec<GroupSlot> = Vec::new();
    let n = caps.len();
    let mut k: usize = 0;
    while k < n
        invariant
            k <= n,
            n == caps@.len(),
            r@ == caps@.subrange(0, k as int),
        decreases n - k,
    {
        r.push(caps[k]);
        k = k + 1;
        proof {
            assert(r@ =~= caps@.subrange(0, k as int));
        }
    }
    proof {
        assert(caps@.subrange(0, n as int) =~= caps@);
    }
    r
}

/// Copies a thread.
pub(crate) fn copy_thread(t: &Thread) -> (r: Thread)
    ensures
        r@ == t@,
{
    Thread { s: t.s, caps: copy_caps(&t.caps) }
}

/// Sorts the threads and removes duplicates: the result is the canonical
/// `dedup_spec` form. Well-formedness of the threads is preserved.
pub(crate) fn dedup_threads(v: Vec<Thread>) -> (r: Vec<Thread>)
    ensures
        r.deep_view() == dedup_spec(v.deep_view()),
        forall|ns: int, nc: int|
            threads_wf(v.deep_view(), ns, nc) ==> threads_wf(r.deep_view(), ns, nc),
{
    let n = v.len();
    let mut out: Vec<Thread> = Vec::new();
    let mut i: usize = 0;
    proof {
        assert(out.deep_view() =~= Seq::<ThreadM>::empty());
    }
    while i < n
        invariant
            i <= n,
            n == v@.len(),
            dedup_spec(v.deep_view()) == dedup_from(v.deep_view(), i as int, out.deep_view()),
        decreases n - i,
    {
        let x = copy_thread(&v[i]);
        let ghost xm = x@;
        let ghost acc0 = out.deep_view();
        let olen = out.len();
        let mut j: usize = 0;
        let mut stop: bool = false;
        while j < olen && !stop
            invariant
                j <= olen,
                olen == out@.len(),
                acc0 == out.deep_view(),
                xm == x@,
                forall|k: int| 0 <= k < j ==> thread_cmp(xm, #[trigger] acc0[k]) > 0,
                stop ==> j < olen && thread_cmp(xm, acc0[j as int]) <= 0,
            decreases olen - j, (if stop { 0int } else { 1int }),
        {
            if thread_cmp_exec(&x, &out[j]) <= 0 {
                stop = true;
            } else {
                j = j + 1;
            }
        }
        let dup = if stop {
            thread_cmp_exec(&x, &out[j]) == 0
        } else {
            false
        };
        proof {
            lemma_insert_at(acc0, xm, j as int);
        }
        if dup {
        } else {
            out.insert(j, x);
            proof {
                assert(out.deep_view() =~~= acc0.insert(j as int, xm));
            }
        }
        i = i + 1;
        proof {
            assert(v.deep_view()[i - 1] == xm);
        }
    }
    proof {
        assert forall|ns: int, nc: int|
            threads_wf(v.deep_view(), ns, nc) implies threads_wf(out.deep_view(), ns, nc) by {
            lemma_dedup_from_wf(v.deep_view(), 0, Seq::empty(), ns, nc);
        }
    }
    out
}

/// All optional offsets: one value per `usize` plus the absent case.
pub open spec fn opt_univ() -> Set<Option<usize>> {
    vstd::set_lib::set_int_range(0, usize::MAX as int + 2).map_by(
        |i: int|
            if i == 0 {
                None
            } else {
                Some((i - 1) as usize)
            },
        |x: Option<usize>|
            match x {
                None => 0int,
                Some(v) => v as int + 1,
            },
    )
}

/// The optional offsets form a finite set holding every value.
pub proof fn lemma_opt_univ()
    ensures
        opt_univ().finite(),
        forall|x: Option<usize>| opt_univ().contains(x),
{
    vstd::set_lib::lemma_int_range(0, usize::MAX as int + 2);
    vstd::set_lib::set_int_range(0, usize::MAX as int + 2).lemma_map_by_finite(
        |i: int|
            if i == 0 {
                None
            } else {
                Some((i - 1) as usize)
            },
        |x: Option<usize>|
            match x {
                None => 0int,
                Some(v) => v as int + 1,
            },
    );
}

/// All capture slots.
pub open spec fn slot_univ() -> Set<GroupSlot> {
    opt_univ().map_flatten_by(
        |a: Option<usize>| opt_univ().map_by(|b: Option<usize>| (a, b), |p: GroupSlot| p.1),
        |p: GroupSlot| p.0,
    )
}

/// The capture slots form a finite set holding every value.
pub proof fn lemma_slot_univ()
    ensures
        slot_univ().finite(),
        forall|p: GroupSlot| slot_univ().contains(p),
{
    lemma_opt_univ();
    opt_univ().lemma_map_flatten_by_finite(
        |a: Option<usize>| opt_univ().map_by(|b: Option<usize>| (a, b), |p: GroupSlot| p.1),
        |p: GroupSlot| p.0,
    );
    assert forall|p: GroupSlot| slot_univ().contains(p) by {
        let fwd = |a: Option<usize>| opt_univ().map_by(
            |b: Option<usize>| (a, b),
            |q_: GroupSlot| q_.1,
        );
        assert(opt_univ().contains(p.0));
        assert(opt_univ().contains(p.1));
        assert(fwd(p.0).contains(p));
    }
}

/// All capture vectors of length `n`.
pub open spec fn caps_univ(n: nat) -> Set<Seq<GroupSlot>>
    decreases n,
{
    if n == 0 {
        Set::empty().insert(Seq::empty())
    } else {
        slot_univ().map_flatten_by(
            |s: GroupSlot|
                caps_univ((n - 1) as nat).map_by(
                    |c: Seq<GroupSlot>| c.push(s),
                    |c2: Seq<GroupSlot>| c2.drop_last(),
                ),
            |c2: Seq<GroupSlot>| c2.last(),
        )
    }
}

/// The capture vectors of a given length form a finite set holding every
/// such vector.
pub proof fn lemma_caps_univ(n: nat)
    ensures
        caps_univ(n).finite(),
        forall|c: Seq<GroupSlot>| c.len() == n ==> caps_univ(n).contains(c),
    decreases n,
{
    lemma_slot_univ();
    if n == 0 {
        assert forall|c: Seq<GroupSlot>| c.len() == 0 implies caps_univ(0).contains(c) by {
            assert(c =~= Seq::<GroupSlot>::empty());
        }
    } else {
        lemma_caps_univ((n - 1) as nat);
        let fwd = |s: GroupSlot|
            caps_univ((n - 1) as nat).map_by(
                |c: Seq<GroupSlot>| c.push(s),
                |c2: Seq<GroupSlot>| c2.drop_last(),
            );
        assert forall|s: GroupSlot| slot_univ().contains(s) implies (#[trigger] fwd(
            s,
        )).finite() by {
            caps_univ((n - 1) as nat).lemma_map_by_finite(
                |c: Seq<GroupSlot>| c.push(s),
                |c2: Seq<GroupSlot>| c2.drop_last(),
            );
        }
        slot_univ().lemma_map_flatten_by_finite(fwd, |c2: Seq<GroupSlot>| c2.last());
        assert forall|c: Seq<GroupSlot>| c.len() == n implies caps_univ(n).contains(c) by {
            assert(slot_univ().contains(c.last()));
            assert(c.drop_last().len() == (n - 1) as nat);
            assert(caps_univ((n - 1) as nat).contains(c.drop_last()));
            assert(c.drop_last().push(c.last()) =~= c);
            assert(fwd(c.last()).contains(c));
        }
    }
}

/// All threads over `ns` states with `nc` capture slots.
pub open spec fn thread_univ(ns: int, nc: nat) -> Set<ThreadM> {
    vstd::set_lib::set_int_range(0, ns).map_flatten_by(
        |s: int|
            caps_univ(nc).map_by(
                |c: Seq<GroupSlot>| ThreadM { s: s as usize, caps: c },
                |t: ThreadM| t.caps,
            ),
        |t: ThreadM| t.s as int,
    )
}

/// The threads over a given automaton size and slot count form a finite set
/// holding every well-formed thread.
pub proof fn lemma_thread_univ(ns: int, nc: nat)
    requires
        0 <= ns,
    ensures
        thread_univ(ns, nc).finite(),
        forall|t: ThreadM| t.s < ns && t.caps.len() == nc ==> thread_univ(ns, nc).contains(t),
{
    lemma_caps_univ(nc);
    vstd::set_lib::lemma_int_range(0, ns);
    let fwd = |s: int|
        caps_univ(nc).map_by(
            |c: Seq<GroupSlot>| ThreadM { s: s as usize, caps: c },
            |t: ThreadM| t.caps,
        );
    assert forall|s: int|
        vstd::set_lib::set_int_range(0, ns).contains(s) implies (#[trigger] fwd(s)).finite() by {
        caps_univ(nc).lemma_map_by_finite(
            |c: Seq<GroupSlot>| ThreadM { s: s as usize, caps: c },
            |t: ThreadM| t.caps,
        );
    }
    vstd::set_lib::set_int_range(0, ns).lemma_map_flatten_by_finite(fwd, |t: ThreadM| t.s as int);
    assert forall|t: ThreadM| t.s < ns && t.caps.len() == nc implies thread_univ(ns, nc).contains(
        t,
    ) by {
        assert(vstd::set_lib::set_int_range(0, ns).contains(t.s as int));
        assert(caps_univ(nc).contains(t.caps));
        assert(fwd(t.s as int).contains(t));
    }
}

/// A list of distinct well-formed threads is no longer than the thread
/// universe.
pub proof fn lemma_distinct_threads_bound(ts: Seq<ThreadM>, ns: int, nc: nat)
    requires
        0 <= ns,
        ts.no_duplicates(),
        threads_wf(ts, ns, nc as int),
    ensures
        ts.len() <= thread_univ(ns, nc).len(),
{
    lemma_thread_univ(ns, nc);
    broadcast use vstd::seq_lib::group_seq_properties;

    ts.unique_seq_to_set();
    assert(ts.to_set().subset_of(thread_univ(ns, nc))) by {
        assert forall|t: ThreadM| ts.to_set().contains(t) implies thread_univ(ns, nc).contains(
            t,
        ) by {
            let k = choose|k: int| 0 <= k < ts.len() && ts[k] == t;
            assert(ts[k].s < ns && ts[k].caps.len() == nc);
        }
    }
    vstd::set_lib::lemma_len_subset(ts.to_set(), thread_univ(ns, nc));
}

/// A capture vector's deep view is its plain view: the slots are already
/// mathematical values.
pub broadcast proof fn lemma_slots_deep_view(v: Vec<GroupSlot>)
    ensures
        #[trigger] v.deep_view() == v@,
{
    assert(v.deep_view() =~= v@);
}

/// A byte vector's deep view is its plain view.
pub broadcast proof fn lemma_bytes_deep_view(v: Vec<u8>)
    ensures
        #[trigger] v.deep_view() == v@,
{
    assert(v.deep_view() =~= v@);
}

/// An accepting candidate: the position where the accept state was reached
/// and the capture slots of the accepting thread.
pub type CandM = (usize, Seq<GroupSlot>);

/// The first group in `g..len` whose starts are both present and differ
/// decides: the later start wins.
pub open spec fn starts_pref(ga: Seq<GroupSlot>, gb: Seq<GroupSlot>, g: int, len: int) -> Option<
    bool,
>
    decreases len - g,
{
    if g >= len {
        None
    } else {
        match (ga[g].0, gb[g].0) {
            (Some(sa), Some(sb)) => if sa != sb {
                Some(sa > sb)
            } else {
                starts_pref(ga, gb, g + 1, len)
            },
            _ => starts_pref(ga, gb, g + 1, len),
        }
    }
}

/// The same decision over group ends: the later end wins.
pub open spec fn ends_pref(ga: Seq<GroupSlot>, gb: Seq<GroupSlot>, g: int, len: int) -> Option<
    bool,
>
    decreases len - g,
{
    if g >= len {
        None
    } else {
        match (ga[g].1, gb[g].1) {
            (Some(ea), Some(eb)) => if ea != eb {
                Some(ea > eb)
            } else {
                ends_pref(ga, gb, g + 1, len)
            },
            _ => ends_pref(ga, gb, g + 1, len),
        }
    }
}

/// The candidate preference: a longer match wins; on equal ends, the first
/// group with differing present starts decides (later start wins); then the
/// first group with differing present ends (later end wins); otherwise the
/// incumbent `b` is kept.
pub open spec fn better_spec(a: CandM, b: CandM) -> bool {
    if a.0 != b.0 {
        a.0 > b.0
    } else {
        let len = if a.1.len() <= b.1.len() {
            a.1.len() as int
        } else {
            b.1.len() as int
        };
        match starts_pref(a.1, b.1, 1, len) {
            Some(r) => r,
            None => match ends_pref(a.1, b.1, 1, len) {
                Some(r) => r,
                None => false,
            },
        }
    }
}

/// Whether candidate `a` is strictly preferred over `b`, as executable code.
pub(crate) fn better_choice(a: &(usize, Vec<GroupSlot>), b: &(usize, Vec<GroupSlot>)) -> (r:
    bool)
    ensures
        r == better_spec((a.0, a.1@), (b.0, b.1@)),
{
    if a.0 != b.0 {
        return a.0 > b.0;
    }
    let alen = a.1.len();
    let blen = b.1.len();
    let len: usize = if alen <= blen {
        alen
    } else {
        blen
    };
    let mut g: usize = 1;
    while g < len
        invariant
            1 <= g,
            g <= len || len < 1,
            len <= a.1@.len(),
            len <= b.1@.len(),
            a.0 == b.0,
            len as int == (if a.1@.len() <= b.1@.len() { a.1@.len() as int } else { b.1@.len() as int }),
            starts_pref(a.1@, b.1@, 1, len as int) == starts_pref(a.1@, b.1@, g as int, len as int),
        decreases len - g,
    {
        match (a.1[g].0, b.1[g].0) {
            (Some(sa), Some(sb)) => {
                if sa != sb {
                    return sa > sb;
                }
            },
            _ => {},
        }
        g = g + 1;
    }
    let mut g2: usize = 1;
    while g2 < len
        invariant
            1 <= g2,
            g2 <= len || len < 1,
            len <= a.1@.len(),
            len <= b.1@.len(),
            a.0 == b.0,
            len as int == (if a.1@.len() <= b.1@.len() { a.1@.len() as int } else { b.1@.len() as int }),
            starts_pref(a.1@, b.1@, 1, len as int) is None,
            ends_pref(a.1@, b.1@, 1, len as int) == ends_pref(a.1@, b.1@, g2 as int, len as int),
        decreases len - g2,
    {
        match (a.1[g2].1, b.1[g2].1) {
            (Some(ea), Some(eb)) => {
                if ea != eb {
                    return ea > eb;
                }
            },
            _ => {},
        }
        g2 = g2 + 1;
    }
    false
}

/// Whether a byte lies in one of the class ranges.
pub open spec fn in_ranges(ranges: Seq<(u8, u8)>, b: u8) -> bool {
    exists|k: int| 0 <= k < ranges.len() && (#[trigger] ranges[k]).0 <= b <= ranges[k].1
}

/// Whether an edge label consumes the byte `b`: a matching literal, any
/// byte for `Any`, or class membership XOR negation. Empty and capture
/// labels consume nothing.
pub open spec fn label_consumes(l: LabelM, b: u8) -> bool {
    match l {
        LabelM::Byte(c) => c == b,
        LabelM::Any => true,
        LabelM::Class { ranges, neg } => {
            let hit = in_ranges(ranges, b);
            (neg && !hit) || (!neg && hit)
        },
        _ => false,
    }
}

/// The threads spawned by one thread's consuming edges on byte `b`, from
/// edge `j` on.
pub open spec fn step_edges(edges: Seq<(LabelM, usize)>, j: int, b: u8, caps: Seq<GroupSlot>) -> Seq<
    ThreadM,
>
    decreases edges.len() - j,
{
    if j >= edges.len() {
        Seq::empty()
    } else {
        let head = if label_consumes(edges[j].0, b) {
            seq![ThreadM { s: edges[j].1, caps }]
        } else {
            Seq::empty()
        };
        head.add(step_edges(edges, j + 1, b, caps))
    }
}

/// The threads spawned by every current thread on byte `b`, from thread `j`
/// on, in order.
pub open spec fn step_all(states: Seq<StateM>, curr: Seq<ThreadM>, j: int, b: u8) -> Seq<ThreadM>
    decreases curr.len() - j,
{
    if j >= curr.len() {
        Seq::empty()
    } else {
        step_edges(states[curr[j].s as int].edges, 0, b, curr[j].caps).add(
            step_all(states, curr, j + 1, b),
        )
    }
}

/// The successors of one thread through non-consuming edges at input
/// position `pos`: empty edges keep the capture slots, capture markers
/// record `pos` in the named group's slot (when the group is in range).
pub open spec fn succ_edges(
    edges: Seq<(LabelM, usize)>,
    j: int,
    caps: Seq<GroupSlot>,
    pos: usize,
) -> Seq<ThreadM>
    decreases edges.len() - j,
{
    if j >= edges.len() {
        Seq::empty()
    } else {
        let head = match edges[j].0 {
            LabelM::Eps => seq![ThreadM { s: edges[j].1, caps }],
            LabelM::CapBegin(g) => seq![
                ThreadM {
                    s: edges[j].1,
                    caps: if g < caps.len() {
                        caps.update(g as int, (Some(pos), caps[g as int].1))
                    } else {
                        caps
                    },
                },
            ],
            LabelM::CapEnd(g) => seq![
                ThreadM {
                    s: edges[j].1,
                    caps: if g < caps.len() {
                        caps.update(g as int, (caps[g as int].0, Some(pos)))
                    } else {
                        caps
                    },
                },
            ],
            _ => Seq::empty(),
        };
        head.add(succ_edges(edges, j + 1, caps, pos))
    }
}

/// Whether an equal thread is already in the list.
pub open spec fn thread_in(ts: Seq<ThreadM>, t: ThreadM) -> bool {
    exists|k: int| 0 <= k < ts.len() && ts[k] == t
}

/// The worklist closure under non-consuming edges, with `fuel` bounding the
/// number of worklist steps: each queued thread is skipped if already
/// emitted, else emitted and its successors enqueued; the emitted list is
/// deduplicated at the end. `None` means the fuel ran out.
pub open spec fn closure_run(
    states: Seq<StateM>,
    pos: usize,
    q: Seq<ThreadM>,
    out: Seq<ThreadM>,
    fuel: nat,
) -> Option<Seq<ThreadM>>
    decreases fuel,
{
    if q.len() == 0 {
        Some(dedup_spec(out))
    } else if fuel == 0 {
        None
    } else {
        let t = q[0];
        if thread_in(out, t) {
            closure_run(states, pos, q.drop_first(), out, (fuel - 1) as nat)
        } else {
            let succs = succ_edges(states[t.s as int].edges, 0, t.caps, pos);
            closure_run(states, pos, q.drop_first().add(succs), out.push(t), (fuel - 1) as nat)
        }
    }
}

/// More fuel never changes a completed closure.
pub proof fn lemma_closure_run_mono(
    states: Seq<StateM>,
    pos: usize,
    q: Seq<ThreadM>,
    out: Seq<ThreadM>,
    f1: nat,
    f2: nat,
)
    requires
        f1 <= f2,
        closure_run(states, pos, q, out, f1) is Some,
    ensures
        closure_run(states, pos, q, out, f2) == closure_run(states, pos, q, out, f1),
    decreases f1,
{
    if q.len() == 0 {
    } else {
        let t = q[0];
        if thread_in(out, t) {
            lemma_closure_run_mono(
                states,
                pos,
                q.drop_first(),
                out,
                (f1 - 1) as nat,
                (f2 - 1) as nat,
            );
        } else {
            let succs = succ_edges(states[t.s as int].edges, 0, t.caps, pos);
            lemma_closure_run_mono(
                states,
                pos,
                q.drop_first().add(succs),
                out.push(t),
                (f1 - 1) as nat,
                (f2 - 1) as nat,
            );
        }
    }
}

/// Scans the current threads for accepting ones and keeps the best
/// candidate under `better_spec`; ties keep the incumbent.
pub open spec fn select_best(
    curr: Seq<ThreadM>,
    j: int,
    accept: usize,
    i: usize,
    last: Option<CandM>,
) -> Option<CandM>
    decreases curr.len() - j,
{
    if j >= curr.len() {
        last
    } else {
        let last2 = if curr[j].s == accept {
            let cand = (i, curr[j].caps);
            match last {
                None => Some(cand),
                Some(best) => if better_spec(cand, best) {
                    Some(cand)
                } else {
                    Some(best)
                },
            }
        } else {
            last
        };
        select_best(curr, j + 1, accept, i, last2)
    }
}

/// A compiled pattern's mathematical value: the automaton and the number of
/// capture groups.
#[verifier::ext_equal]
pub struct RegexM {
    pub states: Seq<StateM>,
    pub start: usize,
    pub accept: usize,
    pub groups: usize,
}

/// A well-formed compiled pattern: valid start, accept and edge targets.
pub open spec fn regex_wf(m: RegexM) -> bool {
    &&& m.start < m.states.len()
    &&& m.accept < m.states.len()
    &&& states_targets_ok(m.states)
}

/// One step of the outer simulation from input position `i`: collect the
/// best accepting candidate, stop at the end of the input or when no thread
/// survives the next byte, else close the stepped threads and continue.
/// `None` means the closure's fuel ran out.
pub open spec fn run_from(
    m: RegexM,
    input: Seq<u8>,
    i: int,
    curr: Seq<ThreadM>,
    last: Option<CandM>,
    fuel: nat,
) -> Option<Option<CandM>>
    decreases input.len() - i,
    when i >= 0
{
    let last2 = select_best(curr, 0, m.accept, i as usize, last);
    if i >= input.len() {
        Some(last2)
    } else {
        let next = step_all(m.states, curr, 0, input[i]);
        if next.len() == 0 {
            Some(last2)
        } else {
            match closure_run(m.states, (i + 1) as usize, next, Seq::empty(), fuel) {
                None => None,
                Some(closed) => run_from(m, input, i + 1, dedup_spec(closed), last2, fuel),
            }
        }
    }
}

/// The initial capture vector: one empty slot per group, slot 0 unused.
pub open spec fn init_caps(groups: usize) -> Seq<GroupSlot> {
    Seq::new((groups + 1) as nat, |g: int| (None::<usize>, None::<usize>))
}

/// The whole simulation: the initial thread is closed at position 0, then
/// the outer loop runs. `None` means the fuel ran out.
pub open spec fn run_full(m: RegexM, input: Seq<u8>, fuel: nat) -> Option<Option<CandM>> {
    let init = seq![ThreadM { s: m.start, caps: init_caps(m.groups) }];
    match closure_run(m.states, 0, init, Seq::empty(), fuel) {
        None => None,
        Some(c0) => run_from(m, input, 0, c0, None, fuel),
    }
}

/// More fuel never changes a completed run.
pub proof fn lemma_run_from_mono(
    m: RegexM,
    input: Seq<u8>,
    i: int,
    curr: Seq<ThreadM>,
    last: Option<CandM>,
    f1: nat,
    f2: nat,
)
    requires
        0 <= i,
        f1 <= f2,
        run_from(m, input, i, curr, last, f1) is Some,
    ensures
        run_from(m, input, i, curr, last, f2) == run_from(m, input, i, curr, last, f1),
    decreases input.len() - i,
{
    if i >= input.len() {
    } else {
        let next = step_all(m.states, curr, 0, input[i]);
        if next.len() == 0 {
        } else {
            let last2 = select_best(curr, 0, m.accept, i as usize, last);
            match closure_run(m.states, (i + 1) as usize, next, Seq::empty(), f1) {
                None => {},
                Some(closed) => {
                    lemma_closure_run_mono(m.states, (i + 1) as usize, next, Seq::empty(), f1, f2);
                    lemma_run_from_mono(m, input, i + 1, dedup_spec(closed), last2, f1, f2);
                },
            }
        }
    }
}

/// More fuel never changes a completed whole run.
pub proof fn lemma_run_full_mono(m: RegexM, input: Seq<u8>, f1: nat, f2: nat)
    requires
        f1 <= f2,
        run_full(m, input, f1) is Some,
    ensures
        run_full(m, input, f2) == run_full(m, input, f1),
{
    let init = seq![ThreadM { s: m.start, caps: init_caps(m.groups) }];
    match closure_run(m.states, 0, init, Seq::empty(), f1) {
        None => {},
        Some(c0) => {
            lemma_closure_run_mono(m.states, 0, init, Seq::empty(), f1, f2);
            lemma_run_from_mono(m, input, 0, c0, None, f1, f2);
        },
    }
}

/// Relates a pattern and an input to a simulation outcome: some fuel
/// suffices and yields it.
pub open spec fn run_rel(m: RegexM, input: Seq<u8>, r: Option<CandM>) -> bool {
    exists|f: nat| run_full(m, input, f) == Some(r)
}

/// The simulation outcome is unique: the fuel does not matter.
pub proof fn lemma_run_rel_unique(m: RegexM, input: Seq<u8>, r1: Option<CandM>, r2: Option<CandM>)
    requires
        run_rel(m, input, r1),
        run_rel(m, input, r2),
    ensures
        r1 == r2,
{
    let f1 = choose|f: nat| run_full(m, input, f) == Some(r1);
    let f2 = choose|f: nat| run_full(m, input, f) == Some(r2);
    if f1 <= f2 {
        lemma_run_full_mono(m, input, f1, f2);
    } else {
        lemma_run_full_mono(m, input, f2, f1);
    }
}

/// The unique simulation outcome (meaningful whenever any fuel suffices,
/// which the executable matcher witnesses).
pub open spec fn run_result(m: RegexM, input: Seq<u8>) -> Option<CandM> {
    choose|r: Option<CandM>| run_rel(m, input, r)
}

/// The capture vector handed to callers: slot 0 is the whole input; slot
/// `g` is the input between the group's recorded start and end when both
/// are present and in range, else absent.
pub open spec fn extract_caps(input: Seq<u8>, groups: usize, caps: Seq<GroupSlot>) -> Seq<
    Option<Seq<u8>>,
> {
    Seq::new(
        (groups + 1) as nat,
        |g: int|
            if g == 0 {
                Some(input)
            } else if 0 <= g < caps.len() && caps[g].0 is Some && caps[g].1 is Some
                && caps[g].0->Some_0 <= caps[g].1->Some_0 && caps[g].1->Some_0 <= input.len() {
                Some(input.subrange(caps[g].0->Some_0 as int, caps[g].1->Some_0 as int))
            } else {
                None
            },
    )
}

/// What `captures` returns for a given simulation outcome: the extracted
/// slots when the accepting candidate consumed the whole input, else
/// nothing.
pub open spec fn caps_result(m: RegexM, input: Seq<u8>, rr: Option<CandM>) -> Option<
    Seq<Option<Seq<u8>>>,
> {
    match rr {
        None => None,
        Some((end, caps)) => if end == input.len() {
            Some(extract_caps(input, m.groups, caps))
        } else {
            None
        },
    }
}

/// Relates a pattern and an input to the capture vector handed out.
pub open spec fn captures_rel(m: RegexM, input: Seq<u8>, c: Option<Seq<Option<Seq<u8>>>>) -> bool {
    exists|rr: Option<CandM>| run_rel(m, input, rr) && c == caps_result(m, input, rr)
}

/// The captures are unique as well.
pub proof fn lemma_captures_rel_unique(
    m: RegexM,
    input: Seq<u8>,
    c1: Option<Seq<Option<Seq<u8>>>>,
    c2: Option<Seq<Option<Seq<u8>>>>,
)
    requires
        captures_rel(m, input, c1),
        captures_rel(m, input, c2),
    ensures
        c1 == c2,
{
    let rr1 = choose|rr: Option<CandM>| run_rel(m, input, rr) && c1 == caps_result(m, input, rr);
    let rr2 = choose|rr: Option<CandM>| run_rel(m, input, rr) && c2 == caps_result(m, input, rr);
    lemma_run_rel_unique(m, input, rr1, rr2);
}

/// The unique capture vector of a pattern and input (meaningful whenever
/// the simulation completes, which the executable matcher witnesses).
pub open spec fn captures_spec(m: RegexM, input: Seq<u8>) -> Option<Seq<Option<Seq<u8>>>> {
    choose|c: Option<Seq<Option<Seq<u8>>>>| captures_rel(m, input, c)
}

} // verus!
