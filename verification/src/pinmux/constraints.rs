//! Pin constraints for the build, keyed by net: a net keeps its id across module boundaries,
//! so a solve at any depth can claim one.
use vstd::multiset::Multiset;
use vstd::prelude::*;

use crate::duplicate::Duplicate;
use crate::order::{in_order, sorted};
use crate::pinmux::model::{PinLock, PinLockV};
use crate::text::same;

verus! {

/// One recorded constraint.
pub struct PinConstraintEntry {
    pub input: String,
    pub module: String,
    /// Instance whose input carried the constraint. A solve may claim this entry only from
    /// that instance or below it.
    pub owner: Vec<String>,
    pub nets: Vec<u64>,
    pub lock: PinLock,
    pub soft: bool,
    pub consumed: bool,
}

/// The value of a `PinConstraintEntry`.
#[verifier::ext_equal]
pub struct EntryV {
    pub input: Seq<char>,
    pub module: Seq<char>,
    pub owner: Seq<Seq<char>>,
    pub nets: Seq<u64>,
    pub lock: PinLockV,
    pub soft: bool,
    pub consumed: bool,
}

impl DeepView for PinConstraintEntry {
    type V = EntryV;

    open spec fn deep_view(&self) -> EntryV {
        EntryV {
            input: self.input@,
            module: self.module@,
            owner: self.owner.deep_view(),
            nets: self.nets@,
            lock: self.lock.deep_view(),
            soft: self.soft,
            consumed: self.consumed,
        }
    }
}

/// The constraints of one build.
pub struct PinConstraints {
    entries: Vec<PinConstraintEntry>,
    /// Credits left by solves that read a constraint before its input bound: one credit
    /// pairs with one later `record` for that same input and net.
    credits: Vec<(String, u64)>,
}

/// The value of `PinConstraints`.
#[verifier::ext_equal]
pub struct ConstraintsV {
    pub entries: Seq<EntryV>,
    pub credits: Multiset<(Seq<char>, u64)>,
}

impl View for PinConstraints {
    type V = ConstraintsV;

    closed spec fn view(&self) -> ConstraintsV {
        ConstraintsV {
            entries: self.entries.deep_view(),
            credits: self.credits.deep_view().to_multiset(),
        }
    }
}

/// Some net of `nets` has a credit for `input`.
pub open spec fn has_credit(c: ConstraintsV, input: Seq<char>, nets: Seq<u64>) -> bool {
    exists|i: int| 0 <= i < nets.len() && c.credits.count((input, #[trigger] nets[i])) > 0
}

/// The credits once each of `nets` has spent one, where it had one.
pub open spec fn spent(
    credits: Multiset<(Seq<char>, u64)>,
    input: Seq<char>,
    nets: Seq<u64>,
) -> Multiset<(Seq<char>, u64)>
    decreases nets.len(),
{
    if nets.len() == 0 {
        credits
    } else {
        spent(credits, input, nets.drop_last()).remove((input, nets.last()))
    }
}

/// The credits once each of `nets` has been given one.
pub open spec fn granted(
    credits: Multiset<(Seq<char>, u64)>,
    input: Seq<char>,
    nets: Seq<u64>,
) -> Multiset<(Seq<char>, u64)>
    decreases nets.len(),
{
    if nets.len() == 0 {
        credits
    } else {
        granted(credits, input, nets.drop_last()).insert((input, nets.last()))
    }
}

/// What `record` makes of the constraints.
pub open spec fn recorded(
    c: ConstraintsV,
    input: Seq<char>,
    module: Seq<char>,
    owner: Seq<Seq<char>>,
    nets: Seq<u64>,
    lock: PinLockV,
    soft: bool,
) -> ConstraintsV {
    ConstraintsV {
        entries: c.entries.push(
            EntryV { input, module, owner, nets, lock, soft, consumed: has_credit(c, input, nets) },
        ),
        credits: spent(c.credits, input, nets),
    }
}

/// The first place in `nets` of a net that the entry carries; the length if there is none.
pub open spec fn first_net(e: EntryV, nets: Seq<u64>) -> int
    decreases nets.len(),
{
    if nets.len() == 0 {
        0
    } else {
        let before = first_net(e, nets.drop_last());
        if before < nets.len() - 1 {
            before
        } else if e.nets.contains(nets.last()) {
            nets.len() - 1
        } else {
            nets.len() as int
        }
    }
}

/// The entry can be claimed for `input` by the module at `solver`: it is open, carries one of
/// the nets and is owned by that module or above it; an entry of that very module must name
/// the same input.
pub open spec fn claimable(
    e: EntryV,
    nets: Seq<u64>,
    solver: Seq<Seq<char>>,
    input: Seq<char>,
) -> bool {
    &&& !e.consumed
    &&& e.owner.is_prefix_of(solver)
    &&& first_net(e, nets) < nets.len()
    &&& e.owner.len() == solver.len() ==> e.input == input
}

/// Entry `i` is met before entry `j` when the nets are walked in order.
pub open spec fn met_first(entries: Seq<EntryV>, nets: Seq<u64>, i: int, j: int) -> bool {
    first_net(entries[i], nets) < first_net(entries[j], nets) || (first_net(entries[i], nets)
        == first_net(entries[j], nets) && i < j)
}

/// Entry `i` wins over entry `j`: its owner is closer, or as close and met first.
pub open spec fn wins(entries: Seq<EntryV>, nets: Seq<u64>, i: int, j: int) -> bool {
    entries[j].owner.len() < entries[i].owner.len() || (entries[j].owner.len()
        == entries[i].owner.len() && (i == j || met_first(entries, nets, i, j)))
}

/// Entry `i` is the one to claim.
pub open spec fn is_claim(
    entries: Seq<EntryV>,
    nets: Seq<u64>,
    solver: Seq<Seq<char>>,
    input: Seq<char>,
    i: int,
) -> bool {
    &&& 0 <= i < entries.len()
    &&& claimable(entries[i], nets, solver, input)
    &&& forall|j: int|
        0 <= j < entries.len() && claimable(#[trigger] entries[j], nets, solver, input) ==> wins(
            entries,
            nets,
            i,
            j,
        )
}

/// Nothing can be claimed.
pub open spec fn nothing_to_claim(
    entries: Seq<EntryV>,
    nets: Seq<u64>,
    solver: Seq<Seq<char>>,
    input: Seq<char>,
) -> bool {
    forall|j: int|
        0 <= j < entries.len() ==> !claimable(#[trigger] entries[j], nets, solver, input)
}

/// The entry to claim, if any.
pub open spec fn claim_index(
    entries: Seq<EntryV>,
    nets: Seq<u64>,
    solver: Seq<Seq<char>>,
    input: Seq<char>,
) -> Option<int> {
    if nothing_to_claim(entries, nets, solver, input) {
        None
    } else {
        Some(choose|i: int| #[trigger] is_claim(entries, nets, solver, input, i))
    }
}

/// What `claim` makes of the constraints.
pub open spec fn after_claim(
    c: ConstraintsV,
    nets: Seq<u64>,
    solver: Seq<Seq<char>>,
    input: Seq<char>,
) -> ConstraintsV {
    match claim_index(c.entries, nets, solver, input) {
        Some(i) => consumed(c, i),
        None => c,
    }
}

/// What `claim` returns.
pub open spec fn claimed_lock(
    c: ConstraintsV,
    nets: Seq<u64>,
    solver: Seq<Seq<char>>,
    input: Seq<char>,
) -> Option<(PinLockV, bool)> {
    match claim_index(c.entries, nets, solver, input) {
        Some(i) => Some((c.entries[i].lock, c.entries[i].soft)),
        None => None,
    }
}

/// What `settle` makes of the constraints: a claim, or a credit on each net; never both.
pub open spec fn after_settle(
    c: ConstraintsV,
    nets: Seq<u64>,
    solver: Seq<Seq<char>>,
    input: Seq<char>,
) -> ConstraintsV {
    match claim_index(c.entries, nets, solver, input) {
        Some(i) => consumed(c, i),
        None => ConstraintsV { credits: granted(c.credits, input, nets), ..c },
    }
}

/// At most one entry is the one to claim.
pub proof fn claim_is_unique(
    entries: Seq<EntryV>,
    nets: Seq<u64>,
    solver: Seq<Seq<char>>,
    input: Seq<char>,
    i: int,
)
    requires
        is_claim(entries, nets, solver, input, i),
    ensures
        claim_index(entries, nets, solver, input) == Some(i),
{
    assert(claimable(entries[i], nets, solver, input));
    let k = choose|k: int| #[trigger] is_claim(entries, nets, solver, input, k);
    assert(wins(entries, nets, i, k));
    assert(claimable(entries[k], nets, solver, input));
    assert(wins(entries, nets, k, i));
}

/// The constraints once entry `i` has been claimed.
pub open spec fn consumed(c: ConstraintsV, i: int) -> ConstraintsV {
    ConstraintsV {
        entries: c.entries.update(i, EntryV { consumed: true, ..c.entries[i] }),
        credits: c.credits,
    }
}

/// Hard constraints that no solve claimed, as module and input, in the order of recording.
pub open spec fn open_hard(entries: Seq<EntryV>) -> Seq<(Seq<char>, Seq<char>)>
    decreases entries.len(),
{
    if entries.len() == 0 {
        Seq::empty()
    } else {
        let rest = open_hard(entries.drop_last());
        let e = entries.last();
        if !e.soft && !e.consumed {
            rest.push((e.module, e.input))
        } else {
            rest
        }
    }
}

proof fn first_net_is_first(e: EntryV, nets: Seq<u64>)
    ensures
        0 <= first_net(e, nets) <= nets.len(),
        first_net(e, nets) < nets.len() ==> e.nets.contains(nets[first_net(e, nets)]),
        forall|p: int| 0 <= p < first_net(e, nets) ==> !e.nets.contains(#[trigger] nets[p]),
    decreases nets.len(),
{
    if nets.len() > 0 {
        first_net_is_first(e, nets.drop_last());
        assert forall|p: int| 0 <= p < first_net(e, nets) implies !e.nets.contains(
            #[trigger] nets[p],
        ) by {
            if p < nets.len() - 1 {
                assert(nets.drop_last()[p] == nets[p]);
            }
        }
    }
}

/// Whether `whole` begins with `part`.
fn begins_with(whole: &Vec<String>, part: &Vec<String>) -> (r: bool)
    ensures
        r == part.deep_view().is_prefix_of(whole.deep_view()),
{
    if part.len() > whole.len() {
        return false;
    }
    let n: usize = part.len();
    let mut i: usize = 0;
    while i < n
        invariant
            n == part@.len(),
            n <= whole@.len(),
            i <= n,
            forall|j: int| 0 <= j < i ==> part.deep_view()[j] == whole.deep_view()[j],
        decreases n - i,
    {
        if !same(part[i].as_str(), whole[i].as_str()) {
            assert(part.deep_view()[i as int] != whole.deep_view()[i as int]);
            assert(whole.deep_view().take(n as int)[i as int] == whole.deep_view()[i as int]);
            return false;
        }
        i += 1;
    }
    assert(part.deep_view() =~= whole.deep_view().take(n as int));
    true
}

fn has_net(nets: &Vec<u64>, n: u64) -> (r: bool)
    ensures
        r == nets@.contains(n),
{
    let mut i: usize = 0;
    while i < nets.len()
        invariant
            i <= nets@.len(),
            forall|j: int| 0 <= j < i ==> nets@[j] != n,
        decreases nets@.len() - i,
    {
        if nets[i] == n {
            assert(nets@[i as int] == n);
            return true;
        }
        i += 1;
    }
    false
}

/// The walk has met entry `k`: on a net before place `p`, or on net `p` before entry `i`.
spec fn met(e: EntryV, nets: Seq<u64>, k: int, p: int, i: int) -> bool {
    first_net(e, nets) < p || (first_net(e, nets) == p && k < i)
}

impl Default for PinConstraints {
    fn default() -> (r: Self)
        ensures
            r@.entries.len() == 0,
            r@.credits == Multiset::<(Seq<char>, u64)>::empty(),
    {
        PinConstraints::new()
    }
}

impl PinConstraints {
    /// No constraints.
    pub fn new() -> (r: Self)
        ensures
            r@.entries.len() == 0,
            r@.credits == Multiset::<(Seq<char>, u64)>::empty(),
    {
        let r = PinConstraints { entries: Vec::new(), credits: Vec::new() };
        proof {
            broadcast use vstd::seq_lib::group_to_multiset_ensures;

            assert(r@.credits =~= Multiset::empty());
        }
        r
    }

    /// The place of a credit for `input` on net `n`.
    fn credit_place(&self, input: &str, n: u64) -> (r: Option<usize>)
        ensures
            match r {
                Some(i) => i < self.credits@.len() && self.credits.deep_view()[i as int] == (input@, n),
                None => self@.credits.count((input@, n)) == 0,
            },
    {
        let mut i: usize = 0;
        while i < self.credits.len()
            invariant
                i <= self.credits@.len(),
                forall|j: int| 0 <= j < i ==> self.credits.deep_view()[j] != (input@, n),
            decreases self.credits@.len() - i,
        {
            assert(self.credits.deep_view()[i as int] == (
                self.credits@[i as int].0@,
                self.credits@[i as int].1,
            ));
            if self.credits[i].1 == n && same(self.credits[i].0.as_str(), input) {
                return Some(i);
            }
            i += 1;
        }
        proof {
            broadcast use vstd::seq_lib::group_to_multiset_ensures;

            assert(!self.credits.deep_view().contains((input@, n)));
        }
        None
    }

    /// Records the constraint that `input` of `module` carries on `nets`. A credit for the
    /// input on one of the nets absolves it.
    pub fn record(
        &mut self,
        input: String,
        module: String,
        owner: Vec<String>,
        nets: Vec<u64>,
        lock: PinLock,
        soft: bool,
    )
        ensures
            final(self)@ == recorded(
                old(self)@,
                input@,
                module@,
                owner.deep_view(),
                nets@,
                lock.deep_view(),
                soft,
            ),
    {
        broadcast use vstd::seq_lib::group_to_multiset_ensures;

        let ghost before = self@;
        let ghost list = self.entries@;
        let n: usize = nets.len();
        let mut paid = false;
        let mut i: usize = 0;
        while i < n
            invariant
                n == nets@.len(),
                i <= n,
                self@.credits == spent(before.credits, input@, nets@.take(i as int)),
                self.entries@ == list,
                paid == exists|j: int|
                    0 <= j < i && before.credits.count((input@, #[trigger] nets@[j])) > 0,
                forall|t: (Seq<char>, u64)| #[trigger]
                    self@.credits.count(t) <= before.credits.count(t),
                forall|m: u64|
                    !nets@.take(i as int).contains(m) ==> #[trigger] self@.credits.count((input@, m))
                        == before.credits.count((input@, m)),
            decreases n - i,
        {
            broadcast use vstd::seq_lib::group_to_multiset_ensures;

            let net: u64 = nets[i];
            let ghost now = nets@.take(i + 1);
            assert(now.drop_last() =~= nets@.take(i as int));
            let ghost credits = self.credits.deep_view();
            match self.credit_place(input.as_str(), net) {
                Some(at) => {
                    assert(credits.contains((input@, net)));
                    assert(self@.credits.count((input@, net)) > 0);
                    assert(self@.credits.count((input@, net)) <= before.credits.count((input@, net)));
                    self.credits.remove(at);
                    paid = true;
                    proof {
                        assert(self.credits.deep_view() =~= credits.remove(at as int));
                        assert(self@.credits =~= credits.to_multiset().remove((input@, net)));
                        assert(before.credits.count((input@, nets@[i as int])) > 0);
                    }
                },
                None => {
                    assert(self@.credits =~= self@.credits.remove((input@, net)));
                    proof {
                        if before.credits.count((input@, net)) > 0 {
                            assert(nets@.take(i as int).contains(net));
                            let j = choose|j: int| 0 <= j < i && nets@.take(i as int)[j] == net;
                            assert(before.credits.count((input@, nets@[j])) > 0);
                        }
                    }
                },
            }
            proof {
                assert forall|m: u64| !now.contains(m) implies #[trigger] self@.credits.count(
                    (input@, m),
                ) == before.credits.count((input@, m)) by {
                    assert(now[i as int] == net);
                    assert(m != net);
                    assert(!nets@.take(i as int).contains(m)) by {
                        if nets@.take(i as int).contains(m) {
                            let j = choose|j: int| 0 <= j < i && nets@.take(i as int)[j] == m;
                            assert(now[j] == m);
                        }
                    }
                }
            }
            i += 1;
        }
        assert(nets@.take(n as int) =~= nets@);
        let ghost e = EntryV {
            input: input@,
            module: module@,
            owner: owner.deep_view(),
            nets: nets@,
            lock: lock.deep_view(),
            soft,
            consumed: paid,
        };
        self.entries.push(
            PinConstraintEntry { input, module, owner, nets, lock, soft, consumed: paid },
        );
        assert(self.entries.deep_view() =~= before.entries.push(e));
    }

    /// Clears everything: the store spans one root evaluation.
    pub fn clear(&mut self)
        ensures
            final(self)@.entries.len() == 0,
            final(self)@.credits == Multiset::<(Seq<char>, u64)>::empty(),
    {
        broadcast use vstd::seq_lib::group_to_multiset_ensures;

        self.entries.clear();
        self.credits.clear();
        assert(self@.credits =~= Multiset::empty());
    }

    /// Leaves one credit for `input` on each of `nets`.
    pub fn preconsume(&mut self, input: &str, nets: &Vec<u64>)
        ensures
            final(self)@.entries == old(self)@.entries,
            final(self)@.credits == granted(old(self)@.credits, input@, nets@),
    {
        let ghost before = self@;
        let ghost list = self.entries@;
        let n: usize = nets.len();
        let mut i: usize = 0;
        assert(nets@.take(0) =~= Seq::empty());
        while i < n
            invariant
                n == nets@.len(),
                i <= n,
                self.entries@ == list,
                self@.credits == granted(before.credits, input@, nets@.take(i as int)),
            decreases n - i,
        {
            broadcast use vstd::seq_lib::group_to_multiset_ensures;

            let ghost credits = self.credits.deep_view();
            let ghost now = nets@.take(i + 1);
            assert(now.drop_last() =~= nets@.take(i as int));
            self.credits.push((input.to_string(), nets[i]));
            assert(self.credits.deep_view() =~= credits.push((input@, nets@[i as int])));
            i += 1;
        }
        assert(nets@.take(n as int) =~= nets@);
    }

    /// Claims the constraint for `input` of the module at `solver`: of the claimable entries
    /// the one with the closest owner.
    pub fn claim(&mut self, nets: &Vec<u64>, solver: &Vec<String>, input: &str) -> (r: Option<
        (PinLock, bool),
    >)
        ensures
            final(self)@ == after_claim(old(self)@, nets@, solver.deep_view(), input@),
            match r {
                Some(found) => claimed_lock(old(self)@, nets@, solver.deep_view(), input@) == Some(
                    (found.0.deep_view(), found.1),
                ),
                None => claimed_lock(old(self)@, nets@, solver.deep_view(), input@) is None,
            },
    {
        let ghost entries = self.entries.deep_view();
        let ghost sv = solver.deep_view();
        let n: usize = nets.len();
        let m: usize = self.entries.len();
        let mut best: Option<usize> = None;
        let mut p: usize = 0;
        proof {
            assert forall|k: int| 0 <= k < m implies !met(#[trigger] entries[k], nets@, k, 0, 0) by {
                first_net_is_first(entries[k], nets@);
            }
        }
        while p < n
            invariant
                *self == *old(self),
                entries == self.entries.deep_view(),
                sv == solver.deep_view(),
                n == nets@.len(),
                m == self.entries@.len(),
                p <= n,
                match best {
                    Some(b) => b < m && claimable(entries[b as int], nets@, sv, input@) && met(
                        entries[b as int],
                        nets@,
                        b as int,
                        p as int,
                        0,
                    ) && forall|k: int|
                        0 <= k < m && claimable(#[trigger] entries[k], nets@, sv, input@) && met(
                            entries[k],
                            nets@,
                            k,
                            p as int,
                            0,
                        ) ==> wins(entries, nets@, b as int, k),
                    None => forall|k: int|
                        0 <= k < m && claimable(#[trigger] entries[k], nets@, sv, input@) ==> !met(
                            entries[k],
                            nets@,
                            k,
                            p as int,
                            0,
                        ),
                },
            decreases n - p,
        {
            let net: u64 = nets[p];
            let mut i: usize = 0;
            while i < m
                invariant
                    *self == *old(self),
                    entries == self.entries.deep_view(),
                    sv == solver.deep_view(),
                    n == nets@.len(),
                    m == self.entries@.len(),
                    p < n,
                    net == nets@[p as int],
                    i <= m,
                    match best {
                        Some(b) => b < m && claimable(entries[b as int], nets@, sv, input@) && met(
                            entries[b as int],
                            nets@,
                            b as int,
                            p as int,
                            i as int,
                        ) && forall|k: int|
                            0 <= k < m && claimable(#[trigger] entries[k], nets@, sv, input@) && met(
                                entries[k],
                                nets@,
                                k,
                                p as int,
                                i as int,
                            ) ==> wins(entries, nets@, b as int, k),
                        None => forall|k: int|
                            0 <= k < m && claimable(#[trigger] entries[k], nets@, sv, input@) ==> !met(
                                entries[k],
                                nets@,
                                k,
                                p as int,
                                i as int,
                            ),
                    },
                decreases m - i,
            {
                let ghost e = entries[i as int];
                proof {
                    first_net_is_first(e, nets@);
                }
                assert(e == self.entries@[i as int].deep_view());
                if has_net(&self.entries[i].nets, net) && !self.entries[i].consumed && begins_with(
                    solver,
                    &self.entries[i].owner,
                ) && (self.entries[i].owner.len() < solver.len() || same(
                    self.entries[i].input.as_str(),
                    input,
                )) {
                    assert(first_net(e, nets@) <= p);
                    assert(claimable(e, nets@, sv, input@));
                    let closer = match best {
                        None => true,
                        Some(b) => self.entries[b].owner.len() < self.entries[i].owner.len(),
                    };
                    if closer {
                        best = Some(i);
                    }
                } else {
                    assert(claimable(e, nets@, sv, input@) ==> first_net(e, nets@) != p);
                }
                i += 1;
            }
            proof {
                assert forall|k: int| 0 <= k < m implies met(#[trigger] entries[k], nets@, k, p as int, m as int)
                    == met(entries[k], nets@, k, p + 1, 0) by {}
            }
            p += 1;
        }
        match best {
            None => {
                assert forall|k: int| 0 <= k < entries.len() implies !claimable(
                    #[trigger] entries[k],
                    nets@,
                    sv,
                    input@,
                ) by {
                    assert(claimable(entries[k], nets@, sv, input@) ==> met(
                        entries[k],
                        nets@,
                        k,
                        n as int,
                        0,
                    ));
                }
                None
            },
            Some(b) => {
                assert(is_claim(entries, nets@, sv, input@, b as int)) by {
                    assert forall|k: int|
                        0 <= k < entries.len() && claimable(
                            #[trigger] entries[k],
                            nets@,
                            sv,
                            input@,
                        ) implies wins(entries, nets@, b as int, k) by {
                        assert(met(entries[k], nets@, k, n as int, 0));
                    }
                }
                proof {
                    claim_is_unique(entries, nets@, sv, input@, b as int);
                }
                let lock = self.entries[b].lock.duplicate();
                let soft = self.entries[b].soft;
                let ghost before = *self;
                self.entries[b].consumed = true;
                assert(self.entries.deep_view() =~= consumed(before@, b as int).entries);
                Some((lock, soft))
            },
        }
    }

    /// Settles `input`'s constraint for a solve that read it off the connection: claims the
    /// entry when its input already bound, else leaves a credit for the record still to
    /// come. Exactly one of the two, never both.
    pub fn settle(&mut self, nets: &Vec<u64>, solver: &Vec<String>, input: &str)
        ensures
            final(self)@ == after_settle(old(self)@, nets@, solver.deep_view(), input@),
    {
        if self.claim(nets, solver, input).is_none() {
            self.preconsume(input, nets);
        }
    }

    /// Hard constraints that no solve claimed, as module and input, sorted.
    pub fn unconsumed_hard(&self) -> (r: Vec<(String, String)>)
        ensures
            r.deep_view() == sorted::<(String, String)>(open_hard(self@.entries)),
    {
        let ghost entries = self.entries.deep_view();
        let n: usize = self.entries.len();
        let mut out: Vec<(String, String)> = Vec::new();
        let mut i: usize = 0;
        assert(out.deep_view() =~= open_hard(entries.take(0)));
        while i < n
            invariant
                entries == self.entries.deep_view(),
                n == self.entries@.len(),
                i <= n,
                out.deep_view() == open_hard(entries.take(i as int)),
            decreases n - i,
        {
            let ghost before = out.deep_view();
            let ghost now = entries.take(i + 1);
            assert(now.drop_last() =~= entries.take(i as int));
            let e = &self.entries[i];
            if !e.soft && !e.consumed {
                out.push((e.module.clone(), e.input.clone()));
                assert(out.deep_view() =~= before.push((e.module@, e.input@)));
            }
            i += 1;
        }
        assert(entries.take(n as int) =~= entries);
        in_order(&out)
    }
}

/// A credit absolves one later record for its input and net, and only one.
pub proof fn a_credit_absolves_one_record(
    c: ConstraintsV,
    input: Seq<char>,
    net: u64,
    first: EntryV,
    second: EntryV,
)
    requires
        c.credits.count((input, net)) == 0,
    ensures
        ({
            let c1 = ConstraintsV { credits: granted(c.credits, input, seq![net]), ..c };
            let c2 = recorded(
                c1,
                input,
                first.module,
                first.owner,
                seq![net],
                first.lock,
                first.soft,
            );
            let c3 = recorded(
                c2,
                input,
                second.module,
                second.owner,
                seq![net],
                second.lock,
                second.soft,
            );
            &&& c3.entries[c.entries.len() as int].consumed
            &&& !c3.entries[c.entries.len() as int + 1].consumed
        }),
{
    let nets = seq![net];
    let c1 = ConstraintsV { credits: granted(c.credits, input, nets), ..c };
    reveal_with_fuel(granted, 2);
    reveal_with_fuel(spent, 2);
    assert(nets.drop_last() =~= Seq::empty());
    assert(c1.credits == c.credits.insert((input, net)));
    assert(c1.credits.count((input, nets[0])) == 1);
    assert(has_credit(c1, input, nets));
    let c2 = recorded(c1, input, first.module, first.owner, nets, first.lock, first.soft);
    assert(c2.credits == c1.credits.remove((input, net)));
    assert(!has_credit(c2, input, nets));
}

/// A credit is no use to another input, nor to another net.
pub proof fn a_credit_serves_its_own_input_and_net(
    c: ConstraintsV,
    input: Seq<char>,
    net: u64,
    other: Seq<char>,
    nets: Seq<u64>,
)
    requires
        !has_credit(c, other, nets),
        other != input || !nets.contains(net),
    ensures
        !has_credit(
            (ConstraintsV { credits: granted(c.credits, input, seq![net]), ..c }),
            other,
            nets,
        ),
{
    reveal_with_fuel(granted, 2);
    assert(seq![net].drop_last() =~= Seq::empty());
    let c1 = ConstraintsV { credits: granted(c.credits, input, seq![net]), ..c };
    assert forall|i: int| 0 <= i < nets.len() implies c1.credits.count((other, #[trigger] nets[i]))
        == 0 by {
        assert(c.credits.count((other, nets[i])) == 0);
        assert((other, nets[i]) != (input, net));
    }
}

/// The constraints after `k` credits for `input` on `net`.
pub open spec fn preconsumed(c: ConstraintsV, input: Seq<char>, net: u64, k: nat) -> ConstraintsV
    decreases k,
{
    if k == 0 {
        c
    } else {
        let before = preconsumed(c, input, net, (k - 1) as nat);
        ConstraintsV { credits: granted(before.credits, input, seq![net]), ..before }
    }
}

/// The constraints after the records, in order.
pub open spec fn recorded_all(c: ConstraintsV, records: Seq<EntryV>) -> ConstraintsV
    decreases records.len(),
{
    if records.len() == 0 {
        c
    } else {
        let r = records.last();
        recorded(
            recorded_all(c, records.drop_last()),
            r.input,
            r.module,
            r.owner,
            r.nets,
            r.lock,
            r.soft,
        )
    }
}

/// The record is one for `input` on `net` alone.
pub open spec fn is_for(r: EntryV, input: Seq<char>, net: u64) -> bool {
    r.input == input && r.nets == seq![net]
}

/// How many of the records are for `input` on `net`.
pub open spec fn count_for(records: Seq<EntryV>, input: Seq<char>, net: u64) -> nat
    decreases records.len(),
{
    if records.len() == 0 {
        0
    } else {
        count_for(records.drop_last(), input, net) + if is_for(records.last(), input, net) {
            1nat
        } else {
            0nat
        }
    }
}

proof fn spent_counts(
    credits: Multiset<(Seq<char>, u64)>,
    input: Seq<char>,
    nets: Seq<u64>,
    t: (Seq<char>, u64),
)
    ensures
        spent(credits, input, nets).count(t) <= credits.count(t),
        t.0 != input || !nets.contains(t.1) ==> spent(credits, input, nets).count(t)
            == credits.count(t),
    decreases nets.len(),
{
    if nets.len() > 0 {
        let front = nets.drop_last();
        spent_counts(credits, input, front, t);
        assert(nets.contains(nets[nets.len() - 1]));
        if front.contains(t.1) {
            let k = choose|k: int| 0 <= k < front.len() && front[k] == t.1;
            assert(nets[k] == t.1);
        }
    }
}

proof fn preconsumed_counts(
    c: ConstraintsV,
    input: Seq<char>,
    net: u64,
    k: nat,
    t: (Seq<char>, u64),
)
    ensures
        preconsumed(c, input, net, k).entries == c.entries,
        preconsumed(c, input, net, k).credits.count(t) == c.credits.count(t) + if t == (input, net) {
            k
        } else {
            0
        },
    decreases k,
{
    if k > 0 {
        let before = preconsumed(c, input, net, (k - 1) as nat);
        preconsumed_counts(c, input, net, (k - 1) as nat, t);
        reveal_with_fuel(granted, 2);
        assert(seq![net].drop_last() =~= Seq::empty());
        assert(granted(before.credits, input, seq![net]) == before.credits.insert((input, net)));
    }
}

proof fn open_hard_lists(entries: Seq<EntryV>, p: int)
    requires
        0 <= p < entries.len(),
        !entries[p].soft,
        !entries[p].consumed,
    ensures
        open_hard(entries).contains((entries[p].module, entries[p].input)),
    decreases entries.len(),
{
    let rest = open_hard(entries.drop_last());
    let all = open_hard(entries);
    let want = (entries[p].module, entries[p].input);
    if p < entries.len() - 1 {
        open_hard_lists(entries.drop_last(), p);
        let k = choose|k: int| 0 <= k < rest.len() && rest[k] == want;
        assert(all[k] == want);
    } else {
        assert(all[rest.len() as int] == want);
    }
}

/// Each credit pairs with exactly one later record of its input and net: of the records for them
/// as many are absolved, the earliest first, as credits were left; no other record is, and the
/// hard ones that are not absolved stay open.
pub proof fn credits_pair_with_records(
    c: ConstraintsV,
    input: Seq<char>,
    net: u64,
    k: nat,
    records: Seq<EntryV>,
    p: int,
)
    requires
        c.credits == Multiset::<(Seq<char>, u64)>::empty(),
        forall|q: int|
            0 <= q < records.len() ==> is_for(#[trigger] records[q], input, net)
                || records[q].input != input || !records[q].nets.contains(net),
        0 <= p < records.len(),
    ensures
        ({
            let after = recorded_all(preconsumed(c, input, net, k), records).entries;
            let at = c.entries.len() + p;
            let absolved = is_for(records[p], input, net) && count_for(
                records.take(p),
                input,
                net,
            ) < k;
            &&& after.len() == c.entries.len() + records.len()
            &&& after.take(c.entries.len() as int) == c.entries
            &&& after[at] == (EntryV { consumed: absolved, ..records[p] })
            &&& !absolved && !records[p].soft ==> open_hard(after).contains(
                (records[p].module, records[p].input),
            )
        }),
{
    let after = recorded_all(preconsumed(c, input, net, k), records).entries;
    records_arrive(c, input, net, k, records);
    assert(after.take(c.entries.len() as int) =~= c.entries);
    let at = c.entries.len() + p;
    assert(after[c.entries.len() + p] == arrives(records, input, net, k, p));
    if !after[at].consumed && !after[at].soft {
        open_hard_lists(after, at);
    }
}

/// What becomes of record `p`.
spec fn arrives(records: Seq<EntryV>, input: Seq<char>, net: u64, k: nat, p: int) -> EntryV {
    EntryV {
        consumed: is_for(records[p], input, net) && count_for(records.take(p), input, net) < k,
        ..records[p]
    }
}

proof fn records_arrive(c: ConstraintsV, input: Seq<char>, net: u64, k: nat, records: Seq<EntryV>)
    requires
        c.credits == Multiset::<(Seq<char>, u64)>::empty(),
        forall|q: int|
            0 <= q < records.len() ==> is_for(#[trigger] records[q], input, net)
                || records[q].input != input || !records[q].nets.contains(net),
    ensures
        ({
            let after = recorded_all(preconsumed(c, input, net, k), records);
            let n = c.entries.len() as int;
            let used = count_for(records, input, net);
            &&& after.entries.len() == n + records.len()
            &&& forall|q: int| 0 <= q < n ==> #[trigger] after.entries[q] == c.entries[q]
            &&& forall|q: int|
                0 <= q < records.len() ==> after.entries[n + q] == #[trigger] arrives(
                    records,
                    input,
                    net,
                    k,
                    q,
                )
            &&& forall|t: (Seq<char>, u64)| #[trigger]
                after.credits.count(t) == if t == (input, net) && used < k {
                    (k - used) as nat
                } else {
                    0
                }
        }),
    decreases records.len(),
{
    let start = preconsumed(c, input, net, k);
    let n = c.entries.len() as int;
    assert forall|t: (Seq<char>, u64)| #[trigger]
        start.credits.count(t) == if t == (input, net) {
            k
        } else {
            0
        } by {
        preconsumed_counts(c, input, net, k, t);
    }
    preconsumed_counts(c, input, net, k, (input, net));
    if records.len() > 0 {
        let front = records.drop_last();
        let r = records.last();
        let last = records.len() - 1;
        assert forall|q: int| 0 <= q < front.len() implies is_for(#[trigger] front[q], input, net)
            || front[q].input != input || !front[q].nets.contains(net) by {
            assert(front[q] == records[q]);
        }
        records_arrive(c, input, net, k, front);
        let before = recorded_all(start, front);
        let after = recorded_all(start, records);
        assert(records.take(last) =~= front);
        assert(records[last] == r);
        let used = count_for(front, input, net);
        if is_for(r, input, net) {
            assert(r.nets[0] == net);
            reveal_with_fuel(spent, 2);
            assert(r.nets.drop_last() =~= Seq::empty());
            assert(after.credits == before.credits.remove((input, net)));
            assert(has_credit(before, r.input, r.nets) == (before.credits.count((input, net)) > 0)) by {
                assert(before.credits.count((input, r.nets[0])) == before.credits.count((input, net)));
            }
        } else {
            assert(!has_credit(before, r.input, r.nets)) by {
                assert forall|i: int| 0 <= i < r.nets.len() implies before.credits.count(
                    (r.input, #[trigger] r.nets[i]),
                ) == 0 by {
                    assert(r.nets.contains(r.nets[i]));
                }
            }
            assert forall|t: (Seq<char>, u64)| #[trigger]
                after.credits.count(t) == before.credits.count(t) by {
                spent_counts(before.credits, r.input, r.nets, t);
            }
        }
        assert forall|q: int| 0 <= q < records.len() implies after.entries[n + q]
            == #[trigger] arrives(records, input, net, k, q) by {
            if q < last {
                assert(records.take(q) =~= front.take(q));
                assert(after.entries[n + q] == before.entries[n + q]);
                assert(before.entries[n + q] == arrives(front, input, net, k, q));
            }
        }
        assert forall|q: int| 0 <= q < n implies #[trigger] after.entries[q] == c.entries[q] by {
            assert(after.entries[q] == before.entries[q]);
        }
    }
}

} // verus!
