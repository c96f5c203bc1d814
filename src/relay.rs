//! Relay plans for broadcasts: the machine-aware planner, its fallbacks, and what the plans
//! reach.

use vstd::multiset::Multiset;
use vstd::prelude::*;
use vstd::string::StringExecFns;

use crate::directory::{LocationID, Orchestra};

verus! {

/// Forwarding plan carried in a message header: each hop learns only its own sub-tree.
#[derive(Debug, PartialEq, Eq)]
pub enum RelayInstruction {
    Relay(Vec<RelayOptions>),
    End,
}

/// One outgoing edge of a relay plan.
#[derive(Debug, PartialEq, Eq)]
pub struct RelayOptions {
    pub sender: LocationID,
    pub destination: LocationID,
    pub relay_instruction: RelayInstruction,
}

/// Spec view of a relay plan.
pub enum RelayPlan {
    Relay(Seq<RelayHop>),
    End,
}

/// Spec view of one edge of a relay plan.
pub struct RelayHop {
    pub sender: LocationID,
    pub destination: LocationID,
    pub next: RelayPlan,
}

/// The spec view of an executable plan.
pub open spec fn plan_of(t: RelayInstruction) -> RelayPlan
    decreases t,
{
    match t {
        RelayInstruction::End => RelayPlan::End,
        RelayInstruction::Relay(v) => RelayPlan::Relay(hops_of(v@)),
    }
}

/// The spec view of a list of edges.
pub open spec fn hops_of(s: Seq<RelayOptions>) -> Seq<RelayHop>
    decreases s,
{
    if s.len() == 0 {
        Seq::empty()
    } else {
        hops_of(s.drop_last()).push(
            RelayHop {
                sender: s.last().sender,
                destination: s.last().destination,
                next: plan_of(s.last().relay_instruction),
            },
        )
    }
}

impl View for RelayInstruction {
    type V = RelayPlan;

    open spec fn view(&self) -> RelayPlan {
        plan_of(*self)
    }
}

/// Every destination of a plan, in depth-first order.
pub open spec fn reached(p: RelayPlan) -> Seq<LocationID>
    decreases p,
{
    match p {
        RelayPlan::End => Seq::empty(),
        RelayPlan::Relay(hops) => reached_hops(hops),
    }
}

/// Every destination below a list of edges, in depth-first order.
pub open spec fn reached_hops(hops: Seq<RelayHop>) -> Seq<LocationID>
    decreases hops,
{
    if hops.len() == 0 {
        Seq::empty()
    } else {
        reached_hops(hops.drop_last()) + seq![hops.last().destination] + reached(hops.last().next)
    }
}

/// The slaves recorded for `x` in a table of `(node, slaves)` entries: the first matching entry wins.
pub open spec fn slaves_of(table: Seq<(LocationID, Seq<LocationID>)>, x: LocationID) -> Seq<LocationID>
    decreases table.len(),
{
    if table.len() == 0 {
        Seq::empty()
    } else if table[0].0 == x {
        table[0].1
    } else {
        slaves_of(table.drop_first(), x)
    }
}

/// The spec view of a slave table.
pub open spec fn table_view(table: Seq<(LocationID, Vec<LocationID>)>) -> Seq<(LocationID, Seq<LocationID>)> {
    table.map_values(|e: (LocationID, Vec<LocationID>)| (e.0, e.1@))
}

/// How many of the `n` round-robin branches of `s` are non-empty.
pub open spec fn heads(s: Seq<LocationID>, n: nat) -> nat {
    if n < s.len() {
        n
    } else {
        s.len()
    }
}

/// Elements `k`, `k + n`, `k + 2n`, ... of `s`: what round-robin dealing into `n` branches puts in branch `k`.
pub open spec fn branch(s: Seq<LocationID>, n: nat, k: nat) -> Seq<LocationID>
    decreases s.len() + n - k,
{
    if k < s.len() && n > 0 {
        seq![s[k as int]] + branch(s, n, k + n)
    } else {
        Seq::empty()
    }
}

/// The plan in which `x` forwards to the heads of the `n` round-robin branches of `masters`,
/// each head relaying the rest of its branch the same way, and then to its own slaves as leaves.
/// A node with nothing to forward gets `End`.
pub open spec fn tree_plan(
    x: LocationID,
    masters: Seq<LocationID>,
    n: nat,
    table: Seq<(LocationID, Seq<LocationID>)>,
) -> RelayPlan
    decreases masters.len(), masters.len() + 1,
{
    let hops = tree_hops(x, masters, n, table, heads(masters, n)) + leaf_hops(x, slaves_of(table, x));
    if hops.len() == 0 {
        RelayPlan::End
    } else {
        RelayPlan::Relay(hops)
    }
}

/// The first `k` branch edges of `tree_plan(x, masters, n, table)`.
pub open spec fn tree_hops(
    x: LocationID,
    masters: Seq<LocationID>,
    n: nat,
    table: Seq<(LocationID, Seq<LocationID>)>,
    k: nat,
) -> Seq<RelayHop>
    decreases masters.len(), k,
{
    if k == 0 || k > heads(masters, n) {
        Seq::empty()
    } else {
        proof {
            lemma_branch_len(masters, n, (k - 1 + n) as nat);
        }
        tree_hops(x, masters, n, table, (k - 1) as nat).push(
            RelayHop {
                sender: x,
                destination: masters[k - 1],
                next: tree_plan(masters[k - 1], branch(masters, n, (k - 1 + n) as nat), n, table),
            },
        )
    }
}

/// Edges from `x` to each of `s` that forward no further.
pub open spec fn leaf_hops(x: LocationID, s: Seq<LocationID>) -> Seq<RelayHop> {
    Seq::new(s.len(), |j: int| RelayHop { sender: x, destination: s[j], next: RelayPlan::End })
}

/// A branch starting at `k` holds at most the elements from `k` on.
pub proof fn lemma_branch_len(s: Seq<LocationID>, n: nat, k: nat)
    requires
        n > 0,
    ensures
        k < s.len() ==> branch(s, n, k).len() <= s.len() - k,
        k >= s.len() ==> branch(s, n, k).len() == 0,
    decreases s.len() + n - k,
{
    if k < s.len() {
        lemma_branch_len(s, n, k + n);
    }
}

/// Branch `k` of dealing `s` round-robin into `n` branches.
fn deal(s: &Vec<LocationID>, n: usize, k: usize) -> (r: Vec<LocationID>)
    requires
        n > 0,
    ensures
        r@ == branch(s@, n as nat, k as nat),
{
    let mut r: Vec<LocationID> = Vec::new();
    if k >= s.len() {
        return r;
    }
    let mut j: usize = k;
    loop
        invariant
            n > 0,
            k <= j < s.len(),
            r@ + branch(s@, n as nat, j as nat) == branch(s@, n as nat, k as nat),
        ensures
            r@ == branch(s@, n as nat, k as nat),
        decreases s.len() - j,
    {
        let ghost before = r@;
        r.push(s[j]);
        assert(before + branch(s@, n as nat, j as nat) == r@ + branch(s@, n as nat, (j + n) as nat));
        if s.len() - j <= n {
            assert(branch(s@, n as nat, (j + n) as nat) == Seq::<LocationID>::empty());
            assert(r@ + Seq::<LocationID>::empty() == r@);
            return r;
        }
        j = j + n;
    }
}

/// Position of the entry for `x` in a slave table, if it has one.
fn find_slaves(table: &Vec<(LocationID, Vec<LocationID>)>, x: LocationID) -> (r: Option<usize>)
    ensures
        match r {
            Some(i) => i < table.len() && table@[i as int].0 == x && slaves_of(table_view(table@), x)
                == table@[i as int].1@,
            None => slaves_of(table_view(table@), x) == Seq::<LocationID>::empty(),
        },
{
    let mut i: usize = 0;
    assert(table_view(table@).subrange(0, table.len() as int) == table_view(table@));
    while i < table.len()
        invariant
            i <= table.len(),
            slaves_of(table_view(table@).subrange(i as int, table.len() as int), x) == slaves_of(
                table_view(table@),
                x,
            ),
        decreases table.len() - i,
    {
        let ghost rest = table_view(table@).subrange(i as int, table.len() as int);
        assert(rest.drop_first() == table_view(table@).subrange(i + 1, table.len() as int));
        if table[i].0 == x {
            return Some(i);
        }
        i = i + 1;
    }
    None
}

pub(crate) proof fn lemma_hops_push(s: Seq<RelayOptions>, o: RelayOptions)
    ensures
        hops_of(s.push(o)) == hops_of(s).push(
            RelayHop { sender: o.sender, destination: o.destination, next: plan_of(o.relay_instruction) },
        ),
        hops_of(s).len() == s.len(),
    decreases s.len(),
{
    assert(s.push(o).drop_last() == s);
    if s.len() > 0 {
        lemma_hops_push(s.drop_last(), s.last());
        assert(s.drop_last().push(s.last()) == s);
    }
}

/// Builds the relay plan in which `sender` reaches `destinations` through an `n`-ary tree
/// and every node of the tree also forwards to its slaves in `slaves`.
pub fn destination_ntree_advanced_support(
    sender: LocationID,
    destinations: &Vec<LocationID>,
    slaves: &Vec<(LocationID, Vec<LocationID>)>,
    n: usize,
) -> (r: RelayInstruction)
    requires
        n > 0,
    ensures
        r@ == tree_plan(sender, destinations@, n as nat, table_view(slaves@)),
    decreases destinations@.len(),
{
    let ghost table = table_view(slaves@);
    let nb: usize = if n < destinations.len() { n } else { destinations.len() };
    let mut options: Vec<RelayOptions> = Vec::new();
    let mut k: usize = 0;
    while k < nb
        invariant
            n > 0,
            table == table_view(slaves@),
            nb == heads(destinations@, n as nat),
            k <= nb,
            hops_of(options@) == tree_hops(sender, destinations@, n as nat, table, k as nat),
        decreases nb - k,
    {
        proof {
            lemma_branch_len(destinations@, n as nat, (k + n) as nat);
        }
        let rest = if destinations.len() - k <= n {
            assert(branch(destinations@, n as nat, (k + n) as nat) == Seq::<LocationID>::empty());
            Vec::new()
        } else {
            deal(destinations, n, k + n)
        };
        let node = destinations[k];
        let sub = destination_ntree_advanced_support(node, &rest, slaves, n);
        let o = RelayOptions { sender, destination: node, relay_instruction: sub };
        proof {
            lemma_hops_push(options@, o);
        }
        options.push(o);
        k = k + 1;
    }
    let ghost own = slaves_of(table, sender);
    if let Some(e) = find_slaves(slaves, sender) {
        let own_slaves = &slaves[e].1;
        let mut j: usize = 0;
        while j < own_slaves.len()
            invariant
                own_slaves@ == own,
                j <= own_slaves.len(),
                hops_of(options@) == tree_hops(sender, destinations@, n as nat, table, nb as nat)
                    + leaf_hops(sender, own.take(j as int)),
            decreases own_slaves.len() - j,
        {
            let o = RelayOptions {
                sender,
                destination: own_slaves[j],
                relay_instruction: RelayInstruction::End,
            };
            proof {
                lemma_hops_push(options@, o);
                assert(leaf_hops(sender, own.take(j + 1)) == leaf_hops(sender, own.take(j as int)).push(
                    RelayHop { sender, destination: own[j as int], next: RelayPlan::End },
                ));
            }
            options.push(o);
            j = j + 1;
        }
        assert(own.take(own.len() as int) == own);
    } else {
        assert(leaf_hops(sender, own) == Seq::<RelayHop>::empty());
    }
    proof {
        lemma_hops_push(options@.drop_last(), options@.last());
    }
    if options.len() == 0 {
        assert(hops_of(options@) == Seq::<RelayHop>::empty());
        RelayInstruction::End
    } else {
        RelayInstruction::Relay(options)
    }
}


/// What a list of masters brings into a plan: each master and its slaves.
pub open spec fn cover(table: Seq<(LocationID, Seq<LocationID>)>, s: Seq<LocationID>) -> Multiset<LocationID>
    decreases s.len(),
{
    if s.len() == 0 {
        Multiset::empty()
    } else {
        Multiset::singleton(s[0]).add(slaves_of(table, s[0]).to_multiset()).add(cover(table, s.drop_first()))
    }
}

/// What the first `k` round-robin branches of `s` bring into a plan.
pub open spec fn dealt(table: Seq<(LocationID, Seq<LocationID>)>, s: Seq<LocationID>, n: nat, k: nat) -> Multiset<LocationID>
    decreases k,
{
    if k == 0 {
        Multiset::empty()
    } else {
        dealt(table, s, n, (k - 1) as nat).add(cover(table, branch(s, n, (k - 1) as nat)))
    }
}

proof fn lemma_cover_append(table: Seq<(LocationID, Seq<LocationID>)>, a: Seq<LocationID>, b: Seq<LocationID>)
    ensures
        cover(table, a + b) =~= cover(table, a).add(cover(table, b)),
    decreases a.len(),
{
    broadcast use vstd::multiset::group_multiset_axioms;

    if a.len() == 0 {
        assert(a + b == b);
    } else {
        assert((a + b).drop_first() == a.drop_first() + b);
        lemma_cover_append(table, a.drop_first(), b);
    }
}

proof fn lemma_branch_shift(s: Seq<LocationID>, n: nat, k: nat)
    requires
        n > 0,
        s.len() >= n,
    ensures
        branch(s, n, k + n) == branch(s.skip(n as int), n, k),
    decreases s.len() + n - k,
{
    if k + n < s.len() {
        lemma_branch_shift(s, n, k + n);
    }
}

proof fn lemma_dealt_empty_tail(table: Seq<(LocationID, Seq<LocationID>)>, s: Seq<LocationID>, n: nat, k: nat)
    requires
        n > 0,
        s.len() <= k,
    ensures
        dealt(table, s, n, k) =~= dealt(table, s, n, s.len()),
    decreases k,
{
    broadcast use vstd::multiset::group_multiset_axioms;

    if k > s.len() {
        lemma_dealt_empty_tail(table, s, n, (k - 1) as nat);
        assert(branch(s, n, (k - 1) as nat) == Seq::<LocationID>::empty());
        assert(cover(table, Seq::<LocationID>::empty()) == Multiset::<LocationID>::empty());
    }
}

/// The first `k` branches hold the first `k` elements as heads, followed by branches of the rest.
proof fn lemma_dealt_split(table: Seq<(LocationID, Seq<LocationID>)>, s: Seq<LocationID>, n: nat, k: nat)
    requires
        n > 0,
        k <= n,
        k <= s.len(),
    ensures
        s.len() >= n ==> dealt(table, s, n, k) =~= cover(table, s.take(k as int)).add(
            dealt(table, s.skip(n as int), n, k),
        ),
        s.len() < n ==> dealt(table, s, n, k) =~= cover(table, s.take(k as int)),
    decreases k,
{
    broadcast use vstd::multiset::group_multiset_axioms;

    if k > 0 {
        let i = (k - 1) as nat;
        lemma_dealt_split(table, s, n, i);
        assert(s.take(k as int) == s.take(i as int) + seq![s[i as int]]);
        lemma_cover_append(table, s.take(i as int), seq![s[i as int]]);
        assert(branch(s, n, i) == seq![s[i as int]] + branch(s, n, i + n));
        lemma_cover_append(table, seq![s[i as int]], branch(s, n, i + n));
        assert(seq![s[i as int]].drop_first() == Seq::<LocationID>::empty());
        if s.len() >= n {
            lemma_branch_shift(s, n, i);
        } else {
            lemma_branch_len(s, n, i + n);
            assert(branch(s, n, i + n) == Seq::<LocationID>::empty());
        }
    }
}

/// Dealing `s` round-robin into `n` branches loses and repeats nothing.
pub proof fn lemma_dealt_is_cover(table: Seq<(LocationID, Seq<LocationID>)>, s: Seq<LocationID>, n: nat)
    requires
        n > 0,
    ensures
        dealt(table, s, n, heads(s, n)) =~= cover(table, s),
    decreases s.len(),
{
    broadcast use vstd::multiset::group_multiset_axioms;

    if s.len() < n {
        lemma_dealt_split(table, s, n, s.len());
        assert(s.take(s.len() as int) == s);
    } else {
        lemma_dealt_split(table, s, n, n);
        let rest = s.skip(n as int);
        lemma_dealt_is_cover(table, rest, n);
        if rest.len() < n {
            lemma_dealt_empty_tail(table, rest, n, n);
        }
        assert(s.take(n as int) + rest == s);
        lemma_cover_append(table, s.take(n as int), rest);
    }
}


proof fn lemma_empty_multiset()
    ensures
        Seq::<LocationID>::empty().to_multiset() =~= Multiset::<LocationID>::empty(),
{
    broadcast use vstd::multiset::group_multiset_axioms;

    Seq::<LocationID>::empty().to_multiset_ensures();
}

proof fn lemma_reached_append(a: Seq<RelayHop>, b: Seq<RelayHop>)
    ensures
        reached_hops(a + b) == reached_hops(a) + reached_hops(b),
    decreases b.len(),
{
    if b.len() == 0 {
        assert(a + b == a);
    } else {
        assert((a + b).drop_last() == a + b.drop_last());
        lemma_reached_append(a, b.drop_last());
    }
}

proof fn lemma_reached_leaves(x: LocationID, s: Seq<LocationID>)
    ensures
        reached_hops(leaf_hops(x, s)) == s,
    decreases s.len(),
{
    if s.len() > 0 {
        let h = leaf_hops(x, s);
        assert(h.drop_last() == leaf_hops(x, s.drop_last()));
        lemma_reached_leaves(x, s.drop_last());
        assert(h.last().destination == s.last());
        assert(reached(h.last().next) == Seq::<LocationID>::empty());
        assert(s.drop_last() + seq![s.last()] + Seq::<LocationID>::empty() == s);
    } else {
        assert(s == Seq::<LocationID>::empty());
    }
}

proof fn lemma_reached_tree_hops(
    x: LocationID,
    masters: Seq<LocationID>,
    n: nat,
    table: Seq<(LocationID, Seq<LocationID>)>,
    k: nat,
)
    requires
        n > 0,
        k <= heads(masters, n),
    ensures
        reached_hops(tree_hops(x, masters, n, table, k)).to_multiset() =~= dealt(table, masters, n, k),
    decreases masters.len(), k,
{
    broadcast use vstd::multiset::group_multiset_axioms, vstd::seq_lib::lemma_multiset_commutative;

    if k > 0 {
        let i = (k - 1) as nat;
        let rest = branch(masters, n, i + n);
        lemma_branch_len(masters, n, i + n);
        lemma_reached_tree_hops(x, masters, n, table, i);
        lemma_reached_tree(masters[i as int], rest, n, table);
        let hops = tree_hops(x, masters, n, table, k);
        let m = masters[i as int];
        assert(hops.drop_last() == tree_hops(x, masters, n, table, i));
        assert(hops.last() == RelayHop { sender: x, destination: m, next: tree_plan(m, rest, n, table) });
        let before = reached_hops(tree_hops(x, masters, n, table, i));
        assert(reached_hops(hops) == before + seq![m] + reached(tree_plan(m, rest, n, table)));
        assert((seq![m] + rest)[0] == m);
        lemma_empty_multiset();
        assert(reached_hops(hops).to_multiset() =~= before.to_multiset().add(seq![m].to_multiset()).add(
            reached(tree_plan(m, rest, n, table)).to_multiset(),
        ));
        assert(branch(masters, n, i) == seq![masters[i as int]] + rest);
        assert((seq![masters[i as int]] + rest).drop_first() == rest);
        assert(seq![m].to_multiset() =~= Multiset::singleton(m)) by {
            assert(seq![m] == Seq::<LocationID>::empty().push(m));
            Seq::<LocationID>::empty().to_multiset_ensures();
        }
    } else {
        lemma_empty_multiset();
    }
}

/// Every destination of `tree_plan(x, masters, n, table)` is a master or the slave of `x` or
/// of a master, with the multiplicity they have in those lists.
pub proof fn lemma_reached_tree(
    x: LocationID,
    masters: Seq<LocationID>,
    n: nat,
    table: Seq<(LocationID, Seq<LocationID>)>,
)
    requires
        n > 0,
    ensures
        reached(tree_plan(x, masters, n, table)).to_multiset() =~= slaves_of(table, x).to_multiset().add(
            cover(table, masters),
        ),
    decreases masters.len(), masters.len() + 1,
{
    broadcast use vstd::multiset::group_multiset_axioms, vstd::seq_lib::lemma_multiset_commutative;

    let nb = heads(masters, n);
    let tree = tree_hops(x, masters, n, table, nb);
    let leaves = leaf_hops(x, slaves_of(table, x));
    lemma_reached_tree_hops(x, masters, n, table, nb);
    lemma_dealt_is_cover(table, masters, n);
    lemma_reached_append(tree, leaves);
    lemma_reached_leaves(x, slaves_of(table, x));
    if (tree + leaves).len() == 0 {
        assert(slaves_of(table, x) =~= Seq::<LocationID>::empty()) by {
            assert(leaves.len() == 0);
        }
        assert(masters.len() == 0);
        lemma_empty_multiset();
    }
}


/// Strictly increasing.
pub open spec fn increasing(u: Seq<LocationID>) -> bool {
    forall|i: int, j: int| 0 <= i < j < u.len() ==> u[i] < u[j]
}

/// The destinations as a set, in increasing order.
pub open spec fn ordered(d: Seq<LocationID>) -> Seq<LocationID> {
    choose|u: Seq<LocationID>| increasing(u) && u.to_set() == d.to_set()
}

proof fn lemma_increasing_unique(u: Seq<LocationID>, v: Seq<LocationID>)
    requires
        increasing(u),
        increasing(v),
        u.to_set() == v.to_set(),
    ensures
        u == v,
    decreases u.len(),
{
    if u.len() == 0 {
        if v.len() > 0 {
            assert(v.to_set().contains(v[0]));
        }
    } else {
        assert(u.to_set().contains(u[0]));
        assert(v.len() > 0);
        assert(v.to_set().contains(v[0]));
        let i = choose|i: int| 0 <= i < v.len() && v[i] == u[0];
        let j = choose|j: int| 0 <= j < u.len() && u[j] == v[0];
        assert(u[0] == v[0]);
        assert(u.drop_first().to_set() == v.drop_first().to_set()) by {
            assert forall|x: LocationID| u.drop_first().to_set().contains(x) implies v.drop_first().to_set().contains(x) by {
                let a = choose|a: int| 0 <= a < u.drop_first().len() && u.drop_first()[a] == x;
                assert(u.to_set().contains(x));
                let b = choose|b: int| 0 <= b < v.len() && v[b] == x;
                assert(b > 0);
                assert(v.drop_first()[b - 1] == x);
            }
            assert forall|x: LocationID| v.drop_first().to_set().contains(x) implies u.drop_first().to_set().contains(x) by {
                let a = choose|a: int| 0 <= a < v.drop_first().len() && v.drop_first()[a] == x;
                assert(v.to_set().contains(x));
                let b = choose|b: int| 0 <= b < u.len() && u[b] == x;
                assert(b > 0);
                assert(u.drop_first()[b - 1] == x);
            }
        }
        lemma_increasing_unique(u.drop_first(), v.drop_first());
        assert(u == seq![u[0]] + u.drop_first());
        assert(v == seq![v[0]] + v.drop_first());
    }
}

/// The destinations as a set, in increasing order.
fn ordered_set(d: &Vec<LocationID>) -> (u: Vec<LocationID>)
    ensures
        u@ == ordered(d@),
        increasing(u@),
        u@.to_set() == d@.to_set(),
{
    let mut u: Vec<LocationID> = Vec::new();
    let mut i: usize = 0;
    while i < d.len()
        invariant
            i <= d.len(),
            increasing(u@),
            forall|y: LocationID| u@.contains(y) <==> (exists|k: int| 0 <= k < i && d@[k] == y),
        decreases d.len() - i,
    {
        let x = d[i];
        let mut p: usize = 0;
        while p < u.len() && u[p] < x
            invariant
                p <= u.len(),
                forall|a: int| 0 <= a < p ==> u@[a] < x,
            decreases u.len() - p,
        {
            p = p + 1;
        }
        if p < u.len() && u[p] == x {
            assert forall|y: LocationID| u@.contains(y) <==> (exists|k: int| 0 <= k < i + 1 && d@[k] == y) by {
                if y == x {
                    assert(u@[p as int] == y);
                    assert(d@[i as int] == y);
                }
                if exists|k: int| 0 <= k < i + 1 && d@[k] == y {
                    let k = choose|k: int| 0 <= k < i + 1 && d@[k] == y;
                    if k < i {
                        assert(exists|k: int| 0 <= k < i && d@[k] == y);
                    }
                }
            }
        } else {
            let ghost before = u@;
            u.insert(p, x);
            proof {
                before.insert_ensures(p as int, x);
                assert forall|a: int, b: int| 0 <= a < b < u@.len() implies u@[a] < u@[b] by {
                    if b < p {
                    } else if b == p {
                    } else if a < p {
                        assert(u@[b] == before[b - 1]);
                    } else if a == p {
                        assert(u@[b] == before[b - 1]);
                        assert(before[p as int] > x);
                    } else {
                        assert(u@[a] == before[a - 1]);
                        assert(u@[b] == before[b - 1]);
                    }
                }
                assert forall|y: LocationID| u@.contains(y) <==> (exists|k: int| 0 <= k < i + 1 && d@[k] == y) by {
                    if u@.contains(y) {
                        let a = choose|a: int| 0 <= a < u@.len() && u@[a] == y;
                        if a < p {
                            assert(before.contains(y));
                        } else if a > p {
                            assert(before[a - 1] == y);
                            assert(before.contains(y));
                        } else {
                            assert(d@[i as int] == y);
                        }
                    }
                    if exists|k: int| 0 <= k < i + 1 && d@[k] == y {
                        let k = choose|k: int| 0 <= k < i + 1 && d@[k] == y;
                        if k < i {
                            assert(exists|k: int| 0 <= k < i && d@[k] == y);
                            assert(before.contains(y));
                            let a = choose|a: int| 0 <= a < before.len() && before[a] == y;
                            if a < p {
                                assert(u@[a] == y);
                            } else {
                                assert(u@[a + 1] == y);
                            }
                        } else {
                            assert(u@[p as int] == y);
                        }
                    }
                }
            }
        }
        i = i + 1;
    }
    proof {
        assert(u@.to_set() =~= d@.to_set()) by {
            assert forall|y: LocationID| u@.to_set().contains(y) <==> d@.to_set().contains(y) by {
                if d@.contains(y) {
                    let k = choose|k: int| 0 <= k < d@.len() && d@[k] == y;
                    assert(exists|k: int| 0 <= k < d@.len() && d@[k] == y);
                }
            }
        }
        lemma_increasing_unique(u@, ordered(d@));
    }
    u
}


/// Elements of `u` (in order) whose machine is `mach` and whose id exceeds `above`.
pub open spec fn members(u: Seq<LocationID>, ms: Seq<Seq<char>>, mach: Seq<char>, above: int) -> Seq<LocationID>
    decreases u.len(),
{
    if u.len() == 0 {
        Seq::empty()
    } else {
        let p = members(u.drop_last(), ms, mach, above);
        if ms[u.last() as int] == mach && u.last() > above {
            p.push(u.last())
        } else {
            p
        }
    }
}

/// The first element of `u` on each machine other than the sender's: the masters that the
/// sender reaches through the tree.
pub open spec fn masters(u: Seq<LocationID>, ms: Seq<Seq<char>>, sender: LocationID) -> Seq<LocationID>
    decreases u.len(),
{
    if u.len() == 0 {
        Seq::empty()
    } else {
        let p = masters(u.drop_last(), ms, sender);
        let y = u.last();
        if ms[y as int] != ms[sender as int] && members(u.drop_last(), ms, ms[y as int], -1).len() == 0 {
            p.push(y)
        } else {
            p
        }
    }
}

/// The destinations in the order given, each at its first occurrence only.
pub open spec fn first_occurrences(d: Seq<LocationID>) -> Seq<LocationID>
    decreases d.len(),
{
    if d.len() == 0 {
        Seq::empty()
    } else {
        let p = first_occurrences(d.drop_last());
        if p.contains(d.last()) {
            p
        } else {
            p.push(d.last())
        }
    }
}

/// Elements of `q` (in order) whose machine is `mach`, other than `skip`.
pub open spec fn group(q: Seq<LocationID>, ms: Seq<Seq<char>>, mach: Seq<char>, skip: int) -> Seq<LocationID>
    decreases q.len(),
{
    if q.len() == 0 {
        Seq::empty()
    } else {
        let p = group(q.drop_last(), ms, mach, skip);
        if ms[q.last() as int] == mach && q.last() as int != skip {
            p.push(q.last())
        } else {
            p
        }
    }
}

/// The slaves of each node, in the order the destinations `q` were given: the sender's are the
/// destinations on its machine; a master's are the other destinations on its machine.
pub open spec fn slave_table(u: Seq<LocationID>, q: Seq<LocationID>, ms: Seq<Seq<char>>, sender: LocationID) -> Seq<
    (LocationID, Seq<LocationID>),
> {
    seq![(sender, group(q, ms, ms[sender as int], -1))] + masters(u, ms, sender).map_values(
        |m: LocationID| (m, group(q, ms, ms[m as int], m as int)),
    )
}

/// The machine-aware broadcast plan of `sender` to the destinations `d`, where `ms` gives the
/// machine of each location id: masters are the smallest id of each machine, reached in
/// increasing order through a binary tree; slaves follow in the order given.
pub open spec fn advanced_plan(sender: LocationID, d: Seq<LocationID>, ms: Seq<Seq<char>>) -> RelayPlan {
    let u = ordered(d);
    tree_plan(sender, masters(u, ms, sender), 2, slave_table(u, first_occurrences(d), ms, sender))
}

/// Every id below the directory's size.
pub open spec fn known_ids(d: Seq<LocationID>, len: nat) -> bool {
    forall|i: int| 0 <= i < d.len() ==> #[trigger] d[i] < len
}

/// Elements of `u[..end]` on the machine of `r` whose id exceeds `above`.
fn members_of(
    u: &Vec<LocationID>,
    end: usize,
    orchestra: &Orchestra,
    r: LocationID,
    above: Option<LocationID>,
) -> (out: Vec<LocationID>)
    requires
        orchestra.wf(),
        end <= u.len(),
        known_ids(u@, orchestra.len()),
        r < orchestra.len(),
    ensures
        out@ == members(u@.take(end as int), orchestra.machines(), orchestra.machines()[r as int], match above {
            Some(a) => a as int,
            None => -1,
        }),
{
    let ghost ms = orchestra.machines();
    let ghost bound: int = match above {
        Some(a) => a as int,
        None => -1,
    };
    let mut out: Vec<LocationID> = Vec::new();
    let mut i: usize = 0;
    assert(u@.take(0) == Seq::<LocationID>::empty());
    while i < end
        invariant
            orchestra.wf(),
            end <= u.len(),
            known_ids(u@, orchestra.len()),
            r < orchestra.len(),
            ms == orchestra.machines(),
            bound == match above {
                Some(a) => a as int,
                None => -1,
            },
            i <= end,
            out@ == members(u@.take(i as int), ms, ms[r as int], bound),
        decreases end - i,
    {
        let y = u[i];
        assert(u@.take(i + 1).drop_last() == u@.take(i as int));
        assert(u@.take(i + 1).last() == y);
        let above_ok = match above {
            Some(a) => y > a,
            None => true,
        };
        if orchestra.same_machine(y, r) && above_ok {
            out.push(y);
        }
        i = i + 1;
    }
    out
}

/// The destinations in the order given, without repeats.
fn first_occurrences_of(d: &Vec<LocationID>) -> (q: Vec<LocationID>)
    ensures
        q@ == first_occurrences(d@),
{
    let mut q: Vec<LocationID> = Vec::new();
    let mut i: usize = 0;
    assert(d@.take(0) == Seq::<LocationID>::empty());
    while i < d.len()
        invariant
            i <= d.len(),
            q@ == first_occurrences(d@.take(i as int)),
        decreases d.len() - i,
    {
        let x = d[i];
        assert(d@.take(i + 1).drop_last() == d@.take(i as int));
        assert(d@.take(i + 1).last() == x);
        let mut seen = false;
        let mut j: usize = 0;
        while j < q.len()
            invariant
                j <= q.len(),
                seen <==> exists|k: int| 0 <= k < j && q@[k] == x,
            decreases q.len() - j,
        {
            if q[j] == x {
                seen = true;
            }
            j = j + 1;
        }
        if !seen {
            q.push(x);
        }
        i = i + 1;
    }
    assert(d@.take(d@.len() as int) == d@);
    q
}

/// Elements of `q` on the machine of `r`, other than `skip`.
fn group_of(q: &Vec<LocationID>, orchestra: &Orchestra, r: LocationID, skip: Option<LocationID>) -> (out: Vec<
    LocationID,
>)
    requires
        orchestra.wf(),
        known_ids(q@, orchestra.len()),
        r < orchestra.len(),
    ensures
        out@ == group(q@, orchestra.machines(), orchestra.machines()[r as int], match skip {
            Some(a) => a as int,
            None => -1,
        }),
{
    let ghost ms = orchestra.machines();
    let ghost bound: int = match skip {
        Some(a) => a as int,
        None => -1,
    };
    let mut out: Vec<LocationID> = Vec::new();
    let mut i: usize = 0;
    assert(q@.take(0) == Seq::<LocationID>::empty());
    while i < q.len()
        invariant
            orchestra.wf(),
            known_ids(q@, orchestra.len()),
            r < orchestra.len(),
            ms == orchestra.machines(),
            bound == match skip {
                Some(a) => a as int,
                None => -1,
            },
            i <= q.len(),
            out@ == group(q@.take(i as int), ms, ms[r as int], bound),
        decreases q.len() - i,
    {
        let y = q[i];
        assert(q@.take(i + 1).drop_last() == q@.take(i as int));
        assert(q@.take(i + 1).last() == y);
        let kept = match skip {
            Some(a) => y != a,
            None => true,
        };
        if orchestra.same_machine(y, r) && kept {
            out.push(y);
        }
        i = i + 1;
    }
    assert(q@.take(q@.len() as int) == q@);
    out
}

/// The masters of `u`: see `masters`.
fn masters_of(u: &Vec<LocationID>, orchestra: &Orchestra, sender: LocationID) -> (out: Vec<LocationID>)
    requires
        orchestra.wf(),
        known_ids(u@, orchestra.len()),
        sender < orchestra.len(),
    ensures
        out@ == masters(u@, orchestra.machines(), sender),
{
    let ghost ms = orchestra.machines();
    let mut out: Vec<LocationID> = Vec::new();
    let mut i: usize = 0;
    assert(u@.take(0) == Seq::<LocationID>::empty());
    while i < u.len()
        invariant
            orchestra.wf(),
            known_ids(u@, orchestra.len()),
            sender < orchestra.len(),
            ms == orchestra.machines(),
            i <= u.len(),
            out@ == masters(u@.take(i as int), ms, sender),
        decreases u.len() - i,
    {
        let y = u[i];
        assert(u@.take(i + 1).drop_last() == u@.take(i as int));
        assert(u@.take(i + 1).last() == y);
        if !orchestra.same_machine(y, sender) {
            let before = members_of(u, i, orchestra, y, None);
            if before.len() == 0 {
                out.push(y);
            }
        }
        i = i + 1;
    }
    assert(u@.take(u@.len() as int) == u@);
    out
}

/// Generates a relay plan that accounts for the machine each location runs on: the
/// destinations are grouped by machine, the smallest id of each group is its master, the
/// sender reaches the masters through a binary tree, and each master (and the sender) forwards
/// to the rest of its group directly, in the order the destinations were given.
pub fn destinations_ntree_advanced(
    sender: LocationID,
    destinations: Vec<LocationID>,
    orchestra: &Orchestra,
) -> (r: RelayInstruction)
    requires
        orchestra.wf(),
        sender < orchestra.len(),
        known_ids(destinations@, orchestra.len()),
    ensures
        r@ == advanced_plan(sender, destinations@, orchestra.machines()),
{
    let ghost ms = orchestra.machines();
    let u = ordered_set(&destinations);
    assert(known_ids(u@, orchestra.len())) by {
        assert forall|i: int| 0 <= i < u@.len() implies #[trigger] u@[i] < orchestra.len() by {
            assert(u@.to_set().contains(u@[i]));
            assert(destinations@.to_set().contains(u@[i]));
            let k = choose|k: int| 0 <= k < destinations@.len() && destinations@[k] == u@[i];
        }
    }
    let q = first_occurrences_of(&destinations);
    proof {
        lemma_first_occurrences(destinations@);
    }
    assert(known_ids(q@, orchestra.len())) by {
        assert forall|i: int| 0 <= i < q@.len() implies #[trigger] q@[i] < orchestra.len() by {
            assert(q@.to_set().contains(q@[i]));
            assert(destinations@.to_set().contains(q@[i]));
            let k = choose|k: int| 0 <= k < destinations@.len() && destinations@[k] == q@[i];
        }
    }
    let own = group_of(&q, orchestra, sender, None);
    let ms_list = masters_of(&u, orchestra, sender);
    let mut table: Vec<(LocationID, Vec<LocationID>)> = Vec::new();
    table.push((sender, own));
    let mut k: usize = 0;
    while k < ms_list.len()
        invariant
            orchestra.wf(),
            known_ids(u@, orchestra.len()),
            known_ids(q@, orchestra.len()),
            ms == orchestra.machines(),
            u@ == ordered(destinations@),
            q@ == first_occurrences(destinations@),
            ms_list@ == masters(u@, ms, sender),
            k <= ms_list.len(),
            sender < orchestra.len(),
            table_view(table@) == slave_table(u@, q@, ms, sender).take(k + 1),
        decreases ms_list.len() - k,
    {
        let m = ms_list[k];
        proof {
            lemma_masters_known(u@, ms, sender, orchestra.len());
        }
        let grp = group_of(&q, orchestra, m, Some(m));
        table.push((m, grp));
        assert(slave_table(u@, q@, ms, sender).take(k + 2) == slave_table(u@, q@, ms, sender).take(k + 1).push((m, grp@)));
        k = k + 1;
    }
    assert(slave_table(u@, q@, ms, sender).take(k + 1) == slave_table(u@, q@, ms, sender));
    destination_ntree_advanced_support(sender, &ms_list, &table, 2)
}

/// The destinations without repeats, in the order given: no repeats, the same set.
pub proof fn lemma_first_occurrences(d: Seq<LocationID>)
    ensures
        first_occurrences(d).no_duplicates(),
        first_occurrences(d).to_set() =~= d.to_set(),
    decreases d.len(),
{
    if d.len() > 0 {
        let p = first_occurrences(d.drop_last());
        lemma_first_occurrences(d.drop_last());
        let x = d.last();
        assert(d[d.len() - 1] == x);
        assert forall|y: LocationID| d.to_set().contains(y) <==> p.to_set().contains(y) || y == x by {
            if d.contains(y) && y != x {
                let i = choose|i: int| 0 <= i < d.len() && d[i] == y;
                assert(d.drop_last()[i] == y);
                assert(d.drop_last().to_set().contains(y));
            }
            if p.to_set().contains(y) {
                assert(d.drop_last().to_set().contains(y));
                let i = choose|i: int| 0 <= i < d.drop_last().len() && d.drop_last()[i] == y;
                assert(d[i] == y);
            }
        }
        if !p.contains(x) {
            let r = p.push(x);
            assert forall|y: LocationID| r.to_set().contains(y) <==> p.to_set().contains(y) || y == x by {
                if r.contains(y) && y != x {
                    let i = choose|i: int| 0 <= i < r.len() && r[i] == y;
                    assert(p[i] == y);
                }
                if p.contains(y) {
                    let i = choose|i: int| 0 <= i < p.len() && p[i] == y;
                    assert(r[i] == y);
                }
                if y == x {
                    assert(r[p.len() as int] == x);
                }
            }
        } else {
            assert(p.to_set().contains(x));
        }
    }
}

proof fn lemma_masters_known(u: Seq<LocationID>, ms: Seq<Seq<char>>, sender: LocationID, len: nat)
    requires
        known_ids(u, len),
    ensures
        known_ids(masters(u, ms, sender), len),
        forall|i: int| 0 <= i < masters(u, ms, sender).len() ==> u.contains(#[trigger] masters(u, ms, sender)[i]),
    decreases u.len(),
{
    if u.len() > 0 {
        lemma_masters_known(u.drop_last(), ms, sender, len);
        let p = masters(u.drop_last(), ms, sender);
        assert forall|i: int| 0 <= i < p.len() implies u.contains(#[trigger] p[i]) by {
            let a = choose|a: int| 0 <= a < u.drop_last().len() && u.drop_last()[a] == p[i];
            assert(u[a] == p[i]);
        }
        assert(u[u.len() - 1] == u.last());
    }
}


/// Fallback plan: the sender sends to every destination directly.
pub fn destinations_naive(sender: LocationID, destinations: Vec<LocationID>) -> (r: RelayInstruction)
    ensures
        r@ == RelayPlan::Relay(leaf_hops(sender, destinations@)),
{
    let mut options: Vec<RelayOptions> = Vec::new();
    let mut i: usize = 0;
    while i < destinations.len()
        invariant
            i <= destinations.len(),
            hops_of(options@) == leaf_hops(sender, destinations@.take(i as int)),
        decreases destinations.len() - i,
    {
        let o = RelayOptions { sender, destination: destinations[i], relay_instruction: RelayInstruction::End };
        proof {
            lemma_hops_push(options@, o);
            assert(leaf_hops(sender, destinations@.take(i + 1)) == leaf_hops(sender, destinations@.take(i as int)).push(
                RelayHop { sender, destination: destinations@[i as int], next: RelayPlan::End },
            ));
        }
        options.push(o);
        i = i + 1;
    }
    assert(destinations@.take(destinations@.len() as int) == destinations@);
    RelayInstruction::Relay(options)
}

/// Fallback plan: the sender reaches the destinations through an `n`-ary tree, with no
/// regard for machines.
pub fn destinations_ntree(sender: LocationID, destinations: &Vec<LocationID>, n: usize) -> (r: RelayInstruction)
    requires
        n > 0,
    ensures
        r@ == tree_plan(sender, destinations@, n as nat, Seq::empty()),
{
    let table: Vec<(LocationID, Vec<LocationID>)> = Vec::new();
    assert(table_view(table@) == Seq::<(LocationID, Seq<LocationID>)>::empty());
    destination_ntree_advanced_support(sender, destinations, &table, n)
}

proof fn lemma_cover_without_slaves(s: Seq<LocationID>)
    ensures
        cover(Seq::empty(), s) =~= s.to_multiset(),
    decreases s.len(),
{
    broadcast use vstd::multiset::group_multiset_axioms, vstd::seq_lib::lemma_multiset_commutative;

    if s.len() == 0 {
        lemma_empty_multiset();
        assert(s == Seq::<LocationID>::empty());
    } else {
        lemma_cover_without_slaves(s.drop_first());
        lemma_empty_multiset();
        assert(s == seq![s[0]] + s.drop_first());
        vstd::seq_lib::lemma_multiset_commutative(seq![s[0]], s.drop_first());
        assert(slaves_of(Seq::empty(), s[0]) == Seq::<LocationID>::empty());
        assert(slaves_of(Seq::empty(), s[0]).to_multiset() =~= Multiset::<LocationID>::empty());
        assert(cover(Seq::empty(), s) =~= Multiset::singleton(s[0]).add(Multiset::<LocationID>::empty()).add(
            cover(Seq::empty(), s.drop_first()),
        ));
        assert(seq![s[0]].to_multiset() =~= Multiset::singleton(s[0])) by {
            assert(seq![s[0]] == Seq::<LocationID>::empty().push(s[0]));
            Seq::<LocationID>::empty().to_multiset_ensures();
        }
    }
}

/// An `n`-ary plan reaches every destination exactly as often as it is listed: once each,
/// when the list has no repeats.
pub proof fn lemma_ntree_covers(sender: LocationID, d: Seq<LocationID>, n: nat)
    requires
        n > 0,
    ensures
        reached(tree_plan(sender, d, n, Seq::empty())).to_multiset() =~= d.to_multiset(),
{
    broadcast use vstd::multiset::group_multiset_axioms;

    lemma_reached_tree(sender, d, n, Seq::empty());
    lemma_cover_without_slaves(d);
    lemma_empty_multiset();
}

/// A broadcast to a single destination is a unicast: one edge from the sender, which
/// forwards no further.
pub proof fn lemma_single_destination(sender: LocationID, d: LocationID, ms: Seq<Seq<char>>)
    requires
        sender < ms.len(),
        d < ms.len(),
    ensures
        advanced_plan(sender, seq![d], ms) == RelayPlan::Relay(
            seq![RelayHop { sender, destination: d, next: RelayPlan::End }],
        ),
{
    let u = seq![d];
    assert(increasing(u));
    lemma_increasing_unique(u, ordered(seq![d]));
    assert(u.drop_last() == Seq::<LocationID>::empty());
    assert(u.last() == d);
    assert(masters(u.drop_last(), ms, sender) == Seq::<LocationID>::empty());
    assert(members(u.drop_last(), ms, ms[d as int], -1) == Seq::<LocationID>::empty());
    assert(members(u.drop_last(), ms, ms[sender as int], -1) == Seq::<LocationID>::empty());
    assert(members(u.drop_last(), ms, ms[d as int], d as int) == Seq::<LocationID>::empty());
    let q = first_occurrences(seq![d]);
    assert(seq![d].drop_last() == Seq::<LocationID>::empty());
    assert(first_occurrences(Seq::<LocationID>::empty()) == Seq::<LocationID>::empty());
    assert(q == u);
    assert(group(u.drop_last(), ms, ms[d as int], -1) == Seq::<LocationID>::empty());
    assert(group(u.drop_last(), ms, ms[sender as int], -1) == Seq::<LocationID>::empty());
    assert(group(u.drop_last(), ms, ms[d as int], d as int) == Seq::<LocationID>::empty());
    let table = slave_table(u, q, ms, sender);
    let m = masters(u, ms, sender);
    let hop = RelayHop { sender, destination: d, next: RelayPlan::End };
    if ms[d as int] == ms[sender as int] {
        assert(m == Seq::<LocationID>::empty());
        assert(slaves_of(table, sender) == seq![d]);
        assert(tree_hops(sender, m, 2, table, 0) == Seq::<RelayHop>::empty());
        assert(leaf_hops(sender, seq![d]) == seq![hop]);
        assert(Seq::<RelayHop>::empty() + seq![hop] == seq![hop]);
    } else {
        assert(m == seq![d]);
        assert(group(u, ms, ms[sender as int], -1) == Seq::<LocationID>::empty());
        assert(group(u, ms, ms[d as int], d as int) == Seq::<LocationID>::empty());
        assert(table[1] == (d, Seq::<LocationID>::empty()));
        assert(table.drop_first()[0] == table[1]);
        assert(slaves_of(table, sender) == Seq::<LocationID>::empty());
        assert(slaves_of(table, d) == Seq::<LocationID>::empty()) by {
            if d == sender {
            } else {
                assert(slaves_of(table.drop_first(), d) == Seq::<LocationID>::empty());
            }
        }
        assert(branch(m, 2, 2) == Seq::<LocationID>::empty());
        let sub = tree_plan(d, Seq::<LocationID>::empty(), 2, table);
        assert(tree_hops(d, Seq::<LocationID>::empty(), 2, table, 0) == Seq::<RelayHop>::empty());
        assert(leaf_hops(d, Seq::<LocationID>::empty()) == Seq::<RelayHop>::empty());
        assert(Seq::<RelayHop>::empty() + Seq::<RelayHop>::empty() == Seq::<RelayHop>::empty());
        assert(sub == RelayPlan::End);
        assert(tree_hops(sender, m, 2, table, 0) == Seq::<RelayHop>::empty());
        assert(tree_hops(sender, m, 2, table, 1) == seq![hop]);
        assert(leaf_hops(sender, Seq::<LocationID>::empty()) == Seq::<RelayHop>::empty());
        assert(seq![hop] + Seq::<RelayHop>::empty() == seq![hop]);
    }
}


/// `u` with `x` put in its place.
spec fn insert_ordered(u: Seq<LocationID>, x: LocationID) -> Seq<LocationID>
    decreases u.len(),
{
    if u.len() == 0 {
        seq![x]
    } else if x < u[0] {
        seq![x] + u
    } else {
        seq![u[0]] + insert_ordered(u.drop_first(), x)
    }
}

proof fn lemma_insert_ordered(u: Seq<LocationID>, x: LocationID)
    requires
        increasing(u),
        !u.contains(x),
    ensures
        increasing(insert_ordered(u, x)),
        insert_ordered(u, x).to_set() == u.to_set().insert(x),
        insert_ordered(u, x).len() > 0,
        insert_ordered(u, x)[0] == (if u.len() > 0 && u[0] < x { u[0] } else { x }),
    decreases u.len(),
{
    let r = insert_ordered(u, x);
    if u.len() == 0 {
        assert(r.to_set() =~= u.to_set().insert(x)) by {
            assert(r[0] == x);
        }
    } else if x < u[0] {
        assert(r.to_set() =~= u.to_set().insert(x)) by {
            assert forall|y: LocationID| r.contains(y) implies u.contains(y) || y == x by {
                let i = choose|i: int| 0 <= i < r.len() && r[i] == y;
                if i > 0 {
                    assert(u[i - 1] == y);
                }
            }
            assert forall|y: LocationID| u.contains(y) implies r.contains(y) by {
                let i = choose|i: int| 0 <= i < u.len() && u[i] == y;
                assert(r[i + 1] == y);
            }
            assert(r[0] == x);
        }
        assert forall|i: int, j: int| 0 <= i < j < r.len() implies r[i] < r[j] by {
            if i > 0 {
                assert(r[i] == u[i - 1] && r[j] == u[j - 1]);
            } else {
                assert(r[j] == u[j - 1]);
                assert(u[0] <= u[j - 1]) by {
                    if j - 1 > 0 {
                        assert(u[0] < u[j - 1]);
                    }
                }
            }
        }
    } else {
        let t = u.drop_first();
        assert(u[0] != x) by {
            assert(u.contains(u[0]));
        }
        assert(increasing(t));
        assert(!t.contains(x)) by {
            if t.contains(x) {
                let i = choose|i: int| 0 <= i < t.len() && t[i] == x;
                assert(u[i + 1] == x);
            }
        }
        lemma_insert_ordered(t, x);
        let rt = insert_ordered(t, x);
        assert(r == seq![u[0]] + rt);
        assert forall|i: int, j: int| 0 <= i < j < r.len() implies r[i] < r[j] by {
            if i > 0 {
                assert(r[i] == rt[i - 1] && r[j] == rt[j - 1]);
            } else {
                assert(r[j] == rt[j - 1]);
                assert(rt.to_set().contains(rt[j - 1]));
                assert(t.to_set().insert(x).contains(rt[j - 1]));
                if rt[j - 1] != x {
                    let k = choose|k: int| 0 <= k < t.len() && t[k] == rt[j - 1];
                    assert(u[k + 1] == rt[j - 1]);
                }
            }
        }
        assert(r.to_set() =~= u.to_set().insert(x)) by {
            assert forall|y: LocationID| r.contains(y) implies u.contains(y) || y == x by {
                let i = choose|i: int| 0 <= i < r.len() && r[i] == y;
                if i > 0 {
                    assert(rt[i - 1] == y);
                    assert(rt.to_set().contains(y));
                    if y != x {
                        let k = choose|k: int| 0 <= k < t.len() && t[k] == y;
                        assert(u[k + 1] == y);
                    }
                }
            }
            assert forall|y: LocationID| u.contains(y) implies r.contains(y) by {
                let i = choose|i: int| 0 <= i < u.len() && u[i] == y;
                if i == 0 {
                    assert(r[0] == y);
                } else {
                    assert(t[i - 1] == y);
                    assert(t.to_set().contains(y));
                    assert(rt.to_set().contains(y));
                    let k = choose|k: int| 0 <= k < rt.len() && rt[k] == y;
                    assert(r[k + 1] == y);
                }
            }
            assert(rt.to_set().contains(x));
            let k = choose|k: int| 0 <= k < rt.len() && rt[k] == x;
            assert(r[k + 1] == x);
        }
    }
}

/// Every list of destinations has an ordered form.
pub proof fn lemma_ordered(d: Seq<LocationID>)
    ensures
        increasing(ordered(d)),
        ordered(d).to_set() == d.to_set(),
    decreases d.len(),
{
    if d.len() == 0 {
        assert(increasing(Seq::<LocationID>::empty()));
        assert(Seq::<LocationID>::empty().to_set() =~= d.to_set());
    } else {
        lemma_ordered(d.drop_last());
        let u = ordered(d.drop_last());
        let x = d.last();
        assert(d.to_set() =~= d.drop_last().to_set().insert(x)) by {
            assert(d == d.drop_last().push(x));
            assert forall|y: LocationID| d.contains(y) implies d.drop_last().contains(y) || y == x by {
                let i = choose|i: int| 0 <= i < d.len() && d[i] == y;
                if i < d.len() - 1 {
                    assert(d.drop_last()[i] == y);
                }
            }
            assert forall|y: LocationID| d.drop_last().contains(y) implies d.contains(y) by {
                let i = choose|i: int| 0 <= i < d.drop_last().len() && d.drop_last()[i] == y;
                assert(d[i] == y);
            }
            assert(d[d.len() - 1] == x);
        }
        if u.contains(x) {
            assert(u.to_set() =~= d.to_set()) by {
                assert(u.to_set().contains(x));
            }
        } else {
            lemma_insert_ordered(u, x);
        }
    }
}


/// Number of elements of `m` on machine `mach`.
spec fn on_machine(m: Seq<LocationID>, ms: Seq<Seq<char>>, mach: Seq<char>) -> nat
    decreases m.len(),
{
    if m.len() == 0 {
        0
    } else {
        on_machine(m.drop_last(), ms, mach) + if ms[m.last() as int] == mach { 1nat } else { 0nat }
    }
}

/// What the masters `m` bring into a plan over the destinations `u`: each master and the later
/// destinations on its machine.
spec fn gathered(u: Seq<LocationID>, ms: Seq<Seq<char>>, m: Seq<LocationID>) -> Multiset<LocationID>
    decreases m.len(),
{
    if m.len() == 0 {
        Multiset::empty()
    } else {
        gathered(u, ms, m.drop_last()).add(Multiset::singleton(m.last())).add(
            members(u, ms, ms[m.last() as int], m.last() as int).to_multiset(),
        )
    }
}

proof fn lemma_members_none(u: Seq<LocationID>, ms: Seq<Seq<char>>, mach: Seq<char>, a: int)
    requires
        members(u, ms, mach, -1).len() == 0,
    ensures
        members(u, ms, mach, a).len() == 0,
    decreases u.len(),
{
    if u.len() > 0 {
        lemma_members_none(u.drop_last(), ms, mach, a);
    }
}

/// Masters lie in `u`, are off the sender's machine, and increase; each machine other than the
/// sender's that has destinations has exactly one master.
proof fn lemma_masters(u: Seq<LocationID>, ms: Seq<Seq<char>>, sender: LocationID, mach: Seq<char>)
    requires
        increasing(u),
    ensures
        increasing(masters(u, ms, sender)),
        forall|i: int| 0 <= i < masters(u, ms, sender).len() ==> u.contains(#[trigger] masters(u, ms, sender)[i])
            && ms[masters(u, ms, sender)[i] as int] != ms[sender as int],
        mach == ms[sender as int] ==> on_machine(masters(u, ms, sender), ms, mach) == 0,
        mach != ms[sender as int] ==> on_machine(masters(u, ms, sender), ms, mach) == (if members(
            u,
            ms,
            mach,
            -1,
        ).len() > 0 {
            1nat
        } else {
            0nat
        }),
    decreases u.len(),
{
    if u.len() > 0 {
        let v = u.drop_last();
        let y = u.last();
        assert(increasing(v));
        lemma_masters(v, ms, sender, mach);
        lemma_masters(v, ms, sender, ms[y as int]);
        let mv = masters(v, ms, sender);
        let m = masters(u, ms, sender);
        assert forall|i: int| 0 <= i < mv.len() implies #[trigger] mv[i] < y by {
            let k = choose|k: int| 0 <= k < v.len() && v[k] == mv[i];
            assert(u[k] == mv[i]);
            assert(u[u.len() - 1] == y);
        }
        if m.len() > mv.len() {
            assert(m == mv.push(y));
            assert(m.drop_last() == mv);
            assert forall|i: int| 0 <= i < m.len() implies u.contains(#[trigger] m[i]) && ms[m[i] as int] != ms[sender as int] by {
                if i < mv.len() {
                    assert(m[i] == mv[i]);
                    let k = choose|k: int| 0 <= k < v.len() && v[k] == mv[i];
                    assert(u[k] == mv[i]);
                } else {
                    assert(u[u.len() - 1] == y);
                }
            }
            if mach == ms[y as int] {
                lemma_members_none(v, ms, mach, -1);
            }
        } else {
            assert forall|i: int| 0 <= i < m.len() implies u.contains(#[trigger] m[i]) && ms[m[i] as int] != ms[sender as int] by {
                let k = choose|k: int| 0 <= k < v.len() && v[k] == mv[i];
                assert(u[k] == mv[i]);
            }
        }
    }
}


proof fn lemma_gathered_grow(u: Seq<LocationID>, ms: Seq<Seq<char>>, m: Seq<LocationID>)
    requires
        u.len() > 0,
        forall|i: int| 0 <= i < m.len() ==> #[trigger] m[i] < u.last(),
    ensures
        forall|x: LocationID| #[trigger] gathered(u, ms, m).count(x) == gathered(u.drop_last(), ms, m).count(x) + (if x
            == u.last() {
            on_machine(m, ms, ms[u.last() as int])
        } else {
            0
        }),
    decreases m.len(),
{
    broadcast use vstd::multiset::group_multiset_axioms;

    if m.len() > 0 {
        let p = m.drop_last();
        let z = m.last();
        assert(z == m[m.len() - 1]);
        assert forall|i: int| 0 <= i < p.len() implies #[trigger] p[i] < u.last() by {
            assert(p[i] == m[i]);
        }
        lemma_gathered_grow(u, ms, p);
        let y = u.last();
        let mu = members(u, ms, ms[z as int], z as int);
        let mv = members(u.drop_last(), ms, ms[z as int], z as int);
        mv.to_multiset_ensures();
        assert(z < y);
        if ms[y as int] == ms[z as int] {
            assert(mu == mv.push(y));
            assert(mu.to_multiset() == mv.to_multiset().insert(y));
        } else {
            assert(mu == mv);
        }
        assert(on_machine(m, ms, ms[y as int]) == on_machine(p, ms, ms[y as int]) + if ms[z as int] == ms[y as int] {
            1nat
        } else {
            0nat
        });
        assert forall|x: LocationID| #[trigger] gathered(u, ms, m).count(x) == gathered(u.drop_last(), ms, m).count(x) + (if x
            == y {
            on_machine(m, ms, ms[y as int])
        } else {
            0
        }) by {
            assert(gathered(u, ms, m).count(x) == gathered(u, ms, p).count(x) + Multiset::singleton(z).count(x)
                + mu.to_multiset().count(x));
            assert(gathered(u.drop_last(), ms, m).count(x) == gathered(u.drop_last(), ms, p).count(x)
                + Multiset::singleton(z).count(x) + mv.to_multiset().count(x));
        }
    }
}

/// The sender's slaves, the masters and their slaves are the destinations, each once.
proof fn lemma_partition(u: Seq<LocationID>, ms: Seq<Seq<char>>, sender: LocationID)
    requires
        increasing(u),
    ensures
        members(u, ms, ms[sender as int], -1).to_multiset().add(gathered(u, ms, masters(u, ms, sender)))
            =~= u.to_multiset(),
    decreases u.len(),
{
    broadcast use vstd::multiset::group_multiset_axioms;

    if u.len() == 0 {
        lemma_empty_multiset();
        assert(u == Seq::<LocationID>::empty());
        assert(members(u, ms, ms[sender as int], -1) == Seq::<LocationID>::empty());
        assert(masters(u, ms, sender) == Seq::<LocationID>::empty());
    } else {
        let v = u.drop_last();
        let y = u.last();
        assert(increasing(v));
        lemma_partition(v, ms, sender);
        lemma_masters(v, ms, sender, ms[y as int]);
        lemma_masters(v, ms, sender, ms[sender as int]);
        let mv = masters(v, ms, sender);
        assert forall|i: int| 0 <= i < mv.len() implies #[trigger] mv[i] < u.last() by {
            let k = choose|k: int| 0 <= k < v.len() && v[k] == mv[i];
            assert(u[k] == mv[i]);
            assert(u[u.len() - 1] == y);
        }
        lemma_gathered_grow(u, ms, mv);
        assert(u == v.push(y));
        v.to_multiset_ensures();
        let own_u = members(u, ms, ms[sender as int], -1);
        let own_v = members(v, ms, ms[sender as int], -1);
        own_v.to_multiset_ensures();
        let lhs = own_u.to_multiset().add(gathered(u, ms, masters(u, ms, sender)));
        if ms[y as int] == ms[sender as int] {
            assert(own_u == own_v.push(y));
            assert(masters(u, ms, sender) == mv);
            assert forall|x: LocationID| lhs.count(x) == u.to_multiset().count(x) by {
                assert(gathered(u, ms, mv).count(x) == gathered(v, ms, mv).count(x));
            }
        } else {
            assert(own_u == own_v);
            if members(v, ms, ms[y as int], -1).len() == 0 {
                let mu = masters(u, ms, sender);
                assert(mu == mv.push(y));
                assert(mu.drop_last() == mv);
                assert(mu.last() == y);
                lemma_members_none(v, ms, ms[y as int], y as int);
                let grp = members(u, ms, ms[y as int], y as int);
                assert(grp == members(v, ms, ms[y as int], y as int));
                assert(grp == Seq::<LocationID>::empty());
                lemma_empty_multiset();
                assert forall|x: LocationID| lhs.count(x) == u.to_multiset().count(x) by {
                    assert(gathered(u, ms, mv).count(x) == gathered(v, ms, mv).count(x));
                    assert(gathered(u, ms, mu).count(x) == gathered(u, ms, mv).count(x) + Multiset::singleton(y).count(x)
                        + grp.to_multiset().count(x));
                }
            } else {
                assert(masters(u, ms, sender) == mv);
                assert forall|x: LocationID| lhs.count(x) == u.to_multiset().count(x) by {
                    assert(gathered(u, ms, mv).count(x) == gathered(v, ms, mv).count(x) + if x == y {
                        1int
                    } else {
                        0int
                    });
                }
            }
        }
    }
}


proof fn lemma_lookup_mapped(m: Seq<LocationID>, q: Seq<LocationID>, ms: Seq<Seq<char>>, x: LocationID)
    requires
        m.contains(x),
    ensures
        slaves_of(m.map_values(|k: LocationID| (k, group(q, ms, ms[k as int], k as int))), x) == group(
            q,
            ms,
            ms[x as int],
            x as int,
        ),
    decreases m.len(),
{
    let t = m.map_values(|k: LocationID| (k, group(q, ms, ms[k as int], k as int)));
    if m[0] != x {
        assert(m.drop_first().contains(x)) by {
            let i = choose|i: int| 0 <= i < m.len() && m[i] == x;
            assert(m.drop_first()[i - 1] == x);
        }
        lemma_lookup_mapped(m.drop_first(), q, ms, x);
        assert(t.drop_first() == m.drop_first().map_values(|k: LocationID| (k, group(q, ms, ms[k as int], k as int))));
    }
}

proof fn lemma_group_count(q: Seq<LocationID>, ms: Seq<Seq<char>>, mach: Seq<char>, skip: int)
    ensures
        forall|x: LocationID| #[trigger] group(q, ms, mach, skip).to_multiset().count(x) == if ms[x as int] == mach && x as int
            != skip {
            q.to_multiset().count(x)
        } else {
            0
        },
    decreases q.len(),
{
    broadcast use vstd::multiset::group_multiset_axioms;

    if q.len() == 0 {
        lemma_empty_multiset();
        assert(q == Seq::<LocationID>::empty());
        assert(group(q, ms, mach, skip) == Seq::<LocationID>::empty());
    } else {
        let v = q.drop_last();
        lemma_group_count(v, ms, mach, skip);
        assert(q == v.push(q.last()));
        v.to_multiset_ensures();
        group(v, ms, mach, skip).to_multiset_ensures();
    }
}

proof fn lemma_members_count(u: Seq<LocationID>, ms: Seq<Seq<char>>, mach: Seq<char>, above: int)
    ensures
        forall|x: LocationID| #[trigger] members(u, ms, mach, above).to_multiset().count(x) == if ms[x as int] == mach && x
            > above {
            u.to_multiset().count(x)
        } else {
            0
        },
    decreases u.len(),
{
    broadcast use vstd::multiset::group_multiset_axioms;

    if u.len() == 0 {
        lemma_empty_multiset();
        assert(u == Seq::<LocationID>::empty());
        assert(members(u, ms, mach, above) == Seq::<LocationID>::empty());
    } else {
        let v = u.drop_last();
        lemma_members_count(v, ms, mach, above);
        assert(u == v.push(u.last()));
        v.to_multiset_ensures();
        members(v, ms, mach, above).to_multiset_ensures();
    }
}

proof fn lemma_members_none_on_machine(u: Seq<LocationID>, ms: Seq<Seq<char>>, mach: Seq<char>)
    requires
        members(u, ms, mach, -1).len() == 0,
    ensures
        forall|i: int| 0 <= i < u.len() ==> ms[#[trigger] u[i] as int] != mach,
    decreases u.len(),
{
    if u.len() > 0 {
        lemma_members_none_on_machine(u.drop_last(), ms, mach);
        assert forall|i: int| 0 <= i < u.len() implies ms[#[trigger] u[i] as int] != mach by {
            if i < u.len() - 1 {
                assert(u.drop_last()[i] == u[i]);
            }
        }
    }
}

/// A master is the least destination on its machine.
proof fn lemma_master_least(u: Seq<LocationID>, ms: Seq<Seq<char>>, sender: LocationID, m: LocationID)
    requires
        increasing(u),
        masters(u, ms, sender).contains(m),
    ensures
        forall|i: int| 0 <= i < u.len() && ms[u[i] as int] == ms[m as int] ==> m <= #[trigger] u[i],
    decreases u.len(),
{
    let v = u.drop_last();
    let y = u.last();
    assert(u.len() > 0);
    assert(increasing(v));
    let mv = masters(v, ms, sender);
    assert(u[u.len() - 1] == y);
    if mv.contains(m) {
        lemma_master_least(v, ms, sender, m);
        lemma_masters(v, ms, sender, ms[m as int]);
        let k = choose|k: int| 0 <= k < mv.len() && mv[k] == m;
        let j = choose|j: int| 0 <= j < v.len() && v[j] == mv[k];
        assert forall|i: int| 0 <= i < u.len() && ms[u[i] as int] == ms[m as int] implies m <= #[trigger] u[i] by {
            if i < u.len() - 1 {
                assert(v[i] == u[i]);
            } else {
                assert(u[j] == m);
            }
        }
    } else {
        let mu = masters(u, ms, sender);
        let k = choose|k: int| 0 <= k < mu.len() && mu[k] == m;
        if mu.len() == mv.len() {
            assert(mu == mv);
            assert(false);
        }
        assert(mu == mv.push(y));
        if k < mv.len() {
            assert(mv[k] == m);
            assert(false);
        }
        assert(m == y);
        lemma_members_none_on_machine(v, ms, ms[y as int]);
        assert forall|i: int| 0 <= i < u.len() && ms[u[i] as int] == ms[m as int] implies m <= #[trigger] u[i] by {
            if i < u.len() - 1 {
                assert(v[i] == u[i]);
            }
        }
    }
}

/// Two repeat-free lists with the same elements hold them with the same multiplicities.
proof fn lemma_same_set_same_multiset(a: Seq<LocationID>, b: Seq<LocationID>)
    requires
        a.no_duplicates(),
        b.no_duplicates(),
        a.to_set() == b.to_set(),
    ensures
        a.to_multiset() =~= b.to_multiset(),
{
    broadcast use vstd::multiset::group_multiset_axioms;

    a.lemma_multiset_has_no_duplicates();
    b.lemma_multiset_has_no_duplicates();
    a.to_multiset_ensures();
    b.to_multiset_ensures();
    assert forall|x: LocationID| a.to_multiset().count(x) == b.to_multiset().count(x) by {
        assert(a.to_set().contains(x) <==> a.contains(x));
        assert(b.to_set().contains(x) <==> b.contains(x));
    }
}

proof fn lemma_cover_gathered(
    u: Seq<LocationID>,
    q: Seq<LocationID>,
    ms: Seq<Seq<char>>,
    sender: LocationID,
    m: Seq<LocationID>,
)
    requires
        increasing(u),
        q.to_multiset() == u.to_multiset(),
        forall|i: int| 0 <= i < m.len() ==> masters(u, ms, sender).contains(#[trigger] m[i]),
    ensures
        cover(slave_table(u, q, ms, sender), m) =~= gathered(u, ms, m),
    decreases m.len(),
{
    broadcast use vstd::multiset::group_multiset_axioms;

    let t = slave_table(u, q, ms, sender);
    if m.len() == 0 {
        assert(cover(t, m) == Multiset::<LocationID>::empty());
    } else {
        let p = m.drop_last();
        let z = m.last();
        assert forall|i: int| 0 <= i < p.len() implies masters(u, ms, sender).contains(#[trigger] p[i]) by {
            assert(p[i] == m[i]);
        }
        lemma_cover_gathered(u, q, ms, sender, p);
        assert(m == p + seq![z]);
        lemma_cover_append(t, p, seq![z]);
        assert(masters(u, ms, sender).contains(z)) by {
            assert(z == m[m.len() - 1]);
        }
        lemma_masters(u, ms, sender, ms[sender as int]);
        let k = choose|k: int| 0 <= k < masters(u, ms, sender).len() && masters(u, ms, sender)[k] == z;
        assert(ms[z as int] != ms[sender as int]);
        assert(t[0].0 == sender);
        assert(t.drop_first() == masters(u, ms, sender).map_values(
            |k: LocationID| (k, group(q, ms, ms[k as int], k as int)),
        ));
        lemma_lookup_mapped(masters(u, ms, sender), q, ms, z);
        assert(seq![z].drop_first() == Seq::<LocationID>::empty());
        assert(cover(t, Seq::<LocationID>::empty()) == Multiset::<LocationID>::empty());
        lemma_group_count(q, ms, ms[z as int], z as int);
        lemma_members_count(u, ms, ms[z as int], z as int);
        lemma_master_least(u, ms, sender, z);
        u.to_multiset_ensures();
        assert(group(q, ms, ms[z as int], z as int).to_multiset() =~= members(u, ms, ms[z as int], z as int).to_multiset()) by {
            assert forall|x: LocationID| #[trigger] group(q, ms, ms[z as int], z as int).to_multiset().count(x)
                == members(u, ms, ms[z as int], z as int).to_multiset().count(x) by {
                if ms[x as int] == ms[z as int] && x < z && u.to_multiset().count(x) > 0 {
                    assert(u.contains(x));
                    let i = choose|i: int| 0 <= i < u.len() && u[i] == x;
                    assert(z <= u[i]);
                }
            }
        }
    }
}

/// The machine-aware plan reaches every destination exactly once and nothing else: the
/// destinations it reaches, with multiplicity, are the requested set.
pub proof fn lemma_advanced_covers(sender: LocationID, d: Seq<LocationID>, ms: Seq<Seq<char>>)
    ensures
        reached(advanced_plan(sender, d, ms)).to_multiset() =~= ordered(d).to_multiset(),
        reached(advanced_plan(sender, d, ms)).no_duplicates(),
        reached(advanced_plan(sender, d, ms)).to_set() =~= d.to_set(),
{
    broadcast use vstd::multiset::group_multiset_axioms;

    let u = ordered(d);
    let q = first_occurrences(d);
    lemma_ordered(d);
    lemma_first_occurrences(d);
    assert(u.no_duplicates());
    lemma_same_set_same_multiset(q, u);
    let m = masters(u, ms, sender);
    let t = slave_table(u, q, ms, sender);
    let r = reached(advanced_plan(sender, d, ms));
    lemma_reached_tree(sender, m, 2, t);
    assert(slaves_of(t, sender) == group(q, ms, ms[sender as int], -1));
    lemma_group_count(q, ms, ms[sender as int], -1);
    lemma_members_count(u, ms, ms[sender as int], -1);
    assert(group(q, ms, ms[sender as int], -1).to_multiset() =~= members(u, ms, ms[sender as int], -1).to_multiset());
    lemma_cover_gathered(u, q, ms, sender, m);
    lemma_partition(u, ms, sender);
    u.lemma_multiset_has_no_duplicates();
    r.to_multiset_ensures();
    u.to_multiset_ensures();
    r.lemma_multiset_has_no_duplicates_conv();
    assert forall|x: LocationID| r.to_set().contains(x) <==> d.to_set().contains(x) by {
        assert(r.to_multiset().count(x) == u.to_multiset().count(x));
        assert(r.contains(x) <==> u.contains(x));
        assert(u.to_set().contains(x) <==> u.contains(x));
    }
}

/// Every element of `u` runs on machine `mach`.
pub open spec fn all_on(u: Seq<LocationID>, ms: Seq<Seq<char>>, mach: Seq<char>) -> bool {
    forall|i: int| 0 <= i < u.len() ==> ms[#[trigger] u[i] as int] == mach
}

proof fn lemma_members_all_on(u: Seq<LocationID>, ms: Seq<Seq<char>>, mach: Seq<char>, a: int)
    requires
        increasing(u),
        all_on(u, ms, mach),
        u.len() > 0 ==> a < u[0],
    ensures
        members(u, ms, mach, a) == u,
    decreases u.len(),
{
    if u.len() > 0 {
        let v = u.drop_last();
        assert(increasing(v));
        assert(all_on(v, ms, mach));
        if v.len() > 0 {
            assert(v[0] == u[0]);
        }
        lemma_members_all_on(v, ms, mach, a);
        assert(u[u.len() - 1] == u.last());
        if u.len() > 1 {
            assert(u[0] < u.last());
        }
        assert(v.push(u.last()) == u);
    }
}

proof fn lemma_masters_one_machine(u: Seq<LocationID>, ms: Seq<Seq<char>>, sender: LocationID, mach: Seq<char>)
    requires
        increasing(u),
        all_on(u, ms, mach),
    ensures
        mach == ms[sender as int] ==> masters(u, ms, sender) == Seq::<LocationID>::empty(),
        mach != ms[sender as int] && u.len() > 0 ==> masters(u, ms, sender) == seq![u[0]],
    decreases u.len(),
{
    if u.len() > 0 {
        let v = u.drop_last();
        assert(increasing(v));
        assert(all_on(v, ms, mach));
        lemma_masters_one_machine(v, ms, sender, mach);
        assert(u[u.len() - 1] == u.last());
        if v.len() > 0 {
            assert(v[0] == u[0]);
            lemma_members_all_on(v, ms, mach, -1);
            assert(v[0] == members(v, ms, mach, -1)[0]);
        } else {
            assert(members(v, ms, ms[u.last() as int], -1) == Seq::<LocationID>::empty());
            assert(masters(v, ms, sender) == Seq::<LocationID>::empty());
        }
    }
}

/// `q` without the element `x`, order kept.
pub open spec fn without(q: Seq<LocationID>, x: LocationID) -> Seq<LocationID>
    decreases q.len(),
{
    if q.len() == 0 {
        Seq::empty()
    } else if q.last() == x {
        without(q.drop_last(), x)
    } else {
        without(q.drop_last(), x).push(q.last())
    }
}

proof fn lemma_group_all_on(q: Seq<LocationID>, ms: Seq<Seq<char>>, mach: Seq<char>, other: Seq<char>, x: LocationID)
    requires
        all_on(q, ms, mach),
    ensures
        group(q, ms, mach, -1) == q,
        group(q, ms, mach, x as int) == without(q, x),
        other != mach ==> group(q, ms, other, -1) == Seq::<LocationID>::empty(),
    decreases q.len(),
{
    if q.len() > 0 {
        assert(all_on(q.drop_last(), ms, mach));
        lemma_group_all_on(q.drop_last(), ms, mach, other, x);
        assert(q[q.len() - 1] == q.last());
        assert(q.drop_last().push(q.last()) == q);
    }
}

/// A list without repeats is its own first occurrences.
pub proof fn lemma_first_occurrences_of_distinct(d: Seq<LocationID>)
    requires
        d.no_duplicates(),
    ensures
        first_occurrences(d) == d,
    decreases d.len(),
{
    if d.len() > 0 {
        let v = d.drop_last();
        assert(v.no_duplicates());
        lemma_first_occurrences_of_distinct(v);
        assert(!v.contains(d.last())) by {
            if v.contains(d.last()) {
                let i = choose|i: int| 0 <= i < v.len() && v[i] == d.last();
                assert(d[i] == d[d.len() - 1]);
            }
        }
        assert(v.push(d.last()) == d);
    }
}

/// When every destination runs on one machine, the plan is a star, its leaves in the order
/// given: from the sender when that machine is its own, and otherwise from the machine's
/// master, the smallest destination id, which the sender reaches with a single edge. A list
/// without repeats is kept as given.
pub proof fn lemma_one_machine_star(sender: LocationID, d: Seq<LocationID>, ms: Seq<Seq<char>>, mach: Seq<char>)
    requires
        all_on(d, ms, mach),
        d.len() > 0,
    ensures
        d.no_duplicates() ==> first_occurrences(d) == d,
        mach == ms[sender as int] ==> advanced_plan(sender, d, ms) == RelayPlan::Relay(
            leaf_hops(sender, first_occurrences(d)),
        ),
        mach != ms[sender as int] ==> advanced_plan(sender, d, ms) == RelayPlan::Relay(
            seq![
                RelayHop {
                    sender,
                    destination: ordered(d)[0],
                    next: if without(first_occurrences(d), ordered(d)[0]).len() == 0 {
                        RelayPlan::End
                    } else {
                        RelayPlan::Relay(leaf_hops(ordered(d)[0], without(first_occurrences(d), ordered(d)[0])))
                    },
                },
            ],
        ),
{
    if d.no_duplicates() {
        lemma_first_occurrences_of_distinct(d);
    }
    lemma_ordered(d);
    lemma_first_occurrences(d);
    let u = ordered(d);
    let q = first_occurrences(d);
    assert(all_on(u, ms, mach)) by {
        assert forall|i: int| 0 <= i < u.len() implies ms[#[trigger] u[i] as int] == mach by {
            assert(u.to_set().contains(u[i]));
            assert(d.to_set().contains(u[i]));
            let k = choose|k: int| 0 <= k < d.len() && d[k] == u[i];
        }
    }
    assert(all_on(q, ms, mach)) by {
        assert forall|i: int| 0 <= i < q.len() implies ms[#[trigger] q[i] as int] == mach by {
            assert(q.to_set().contains(q[i]));
            assert(d.to_set().contains(q[i]));
            let k = choose|k: int| 0 <= k < d.len() && d[k] == q[i];
        }
    }
    assert(u.len() > 0) by {
        assert(d.to_set().contains(d[0]));
        assert(u.to_set().contains(d[0]));
    }
    lemma_masters_one_machine(u, ms, sender, mach);
    let t = slave_table(u, q, ms, sender);
    let m = masters(u, ms, sender);
    lemma_group_all_on(q, ms, mach, ms[sender as int], u[0]);
    assert(tree_hops(sender, Seq::<LocationID>::empty(), 2, t, 0) == Seq::<RelayHop>::empty());
    if mach == ms[sender as int] {
        assert(slaves_of(t, sender) == q);
        assert(Seq::<RelayHop>::empty() + leaf_hops(sender, q) == leaf_hops(sender, q));
    } else {
        let m0 = u[0];
        let rest = without(q, m0);
        assert(slaves_of(t, sender) == Seq::<LocationID>::empty());
        assert(t[1] == (m0, group(q, ms, ms[m0 as int], m0 as int)));
        assert(t.drop_first()[0] == t[1]);
        assert(m0 != sender);
        assert(ms[m0 as int] == mach);
        assert(t[0].0 == sender);
        assert(slaves_of(t.drop_first(), m0) == rest);
        assert(slaves_of(t, m0) == rest);
        assert(branch(m, 2, 2) == Seq::<LocationID>::empty());
        let sub = tree_plan(m0, Seq::<LocationID>::empty(), 2, t);
        assert(tree_hops(m0, Seq::<LocationID>::empty(), 2, t, 0) == Seq::<RelayHop>::empty());
        assert(Seq::<RelayHop>::empty() + leaf_hops(m0, rest) == leaf_hops(m0, rest));
        if rest.len() == 0 {
            assert(leaf_hops(m0, rest) == Seq::<RelayHop>::empty());
        }
        assert(tree_hops(sender, m, 2, t, 0) == Seq::<RelayHop>::empty());
        assert(leaf_hops(sender, Seq::<LocationID>::empty()) == Seq::<RelayHop>::empty());
        let hop = RelayHop { sender, destination: m0, next: sub };
        assert(tree_hops(sender, m, 2, t, 1) == seq![hop]);
        assert(seq![hop] + Seq::<RelayHop>::empty() == seq![hop]);
    }
}

/// `2 * indent` spaces.
pub open spec fn margin(indent: nat) -> Seq<char> {
    Seq::new(2 * indent, |i: int| ' ')
}

/// Text of a plan, one line per edge, nested edges indented by two more spaces; `names` gives
/// the name of each location id.
pub open spec fn plan_text(p: RelayPlan, names: Seq<Seq<char>>, indent: nat) -> Seq<char>
    decreases p,
{
    match p {
        RelayPlan::End => margin(indent) + "End"@,
        RelayPlan::Relay(hops) => margin(indent) + "Relay\n"@ + hops_text(hops, names, indent),
    }
}

/// Text of a list of edges: for each, a line naming its destination, then its sub-plan one
/// level deeper; a line feed separates consecutive edges.
pub open spec fn hops_text(hops: Seq<RelayHop>, names: Seq<Seq<char>>, indent: nat) -> Seq<char>
    decreases hops,
{
    if hops.len() == 0 {
        Seq::empty()
    } else {
        let head = margin(indent) + "| → to "@ + names[hops[0].destination as int] + "\n"@ + plan_text(
            hops[0].next,
            names,
            indent + 1,
        );
        if hops.len() == 1 {
            head
        } else {
            head + "\n"@ + hops_text(hops.drop_first(), names, indent)
        }
    }
}

/// Depth of the deepest edge of a plan.
pub open spec fn plan_height(p: RelayPlan) -> nat
    decreases p,
{
    match p {
        RelayPlan::End => 0,
        RelayPlan::Relay(hops) => 1 + hops_height(hops),
    }
}

pub open spec fn hops_height(hops: Seq<RelayHop>) -> nat
    decreases hops,
{
    if hops.len() == 0 {
        0
    } else {
        let a = plan_height(hops[0].next);
        let b = hops_height(hops.drop_first());
        if a > b { a } else { b }
    }
}

proof fn lemma_hops_height_each(hops: Seq<RelayHop>, i: int)
    requires
        0 <= i < hops.len(),
    ensures
        plan_height(hops[i].next) <= hops_height(hops),
    decreases hops.len(),
{
    if i > 0 {
        lemma_hops_height_each(hops.drop_first(), i - 1);
    }
}

/// Every destination in the plan is a known location id.
pub open spec fn plan_known(p: RelayPlan, len: nat) -> bool
    decreases p,
{
    match p {
        RelayPlan::End => true,
        RelayPlan::Relay(hops) => hops_known(hops, len),
    }
}

pub open spec fn hops_known(hops: Seq<RelayHop>, len: nat) -> bool
    decreases hops,
{
    hops.len() == 0 || (hops[0].destination < len && plan_known(hops[0].next, len) && hops_known(hops.drop_first(), len))
}

proof fn lemma_hops_known_each(hops: Seq<RelayHop>, len: nat, i: int)
    requires
        hops_known(hops, len),
        0 <= i < hops.len(),
    ensures
        hops[i].destination < len,
        plan_known(hops[i].next, len),
        hops_known(hops.drop_first(), len),
    decreases hops.len(),
{
    if i > 0 {
        lemma_hops_known_each(hops.drop_first(), len, i - 1);
    }
}

fn push_margin(out: &mut String, indent: usize)
    ensures
        final(out)@ == old(out)@ + margin(indent as nat),
{
    proof {
        reveal_strlit("  ");
    }
    let mut k: usize = 0;
    while k < indent
        invariant
            k <= indent,
            out@ == old(out)@ + margin(k as nat),
        decreases indent - k,
    {
        proof {
            reveal_strlit("  ");
        }
        out.append("  ");
        assert(margin(k as nat) + "  "@ == margin((k + 1) as nat));
        k = k + 1;
    }
}

/// The line of an edge and the text of its sub-plan.
pub open spec fn hop_text(h: RelayHop, names: Seq<Seq<char>>, indent: nat) -> Seq<char> {
    margin(indent) + "| → to "@ + names[h.destination as int] + "\n"@ + plan_text(h.next, names, indent + 1)
}

/// The texts of the first `k` edges, separated by line feeds.
spec fn joined_hops(hops: Seq<RelayHop>, names: Seq<Seq<char>>, indent: nat, k: nat) -> Seq<char>
    decreases k,
{
    if k == 0 {
        Seq::empty()
    } else if k == 1 {
        hop_text(hops[0], names, indent)
    } else {
        joined_hops(hops, names, indent, (k - 1) as nat) + "\n"@ + hop_text(hops[k - 1], names, indent)
    }
}

proof fn lemma_joined_front(hops: Seq<RelayHop>, names: Seq<Seq<char>>, indent: nat, k: nat)
    requires
        2 <= k <= hops.len(),
    ensures
        joined_hops(hops, names, indent, k) == hop_text(hops[0], names, indent) + "\n"@ + joined_hops(
            hops.drop_first(),
            names,
            indent,
            (k - 1) as nat,
        ),
    decreases k,
{
    let df = hops.drop_first();
    if k > 2 {
        lemma_joined_front(hops, names, indent, (k - 1) as nat);
        assert(df[k - 2] == hops[k - 1]);
        assert(joined_hops(df, names, indent, (k - 1) as nat) == joined_hops(df, names, indent, (k - 2) as nat) + "\n"@
            + hop_text(df[k - 2], names, indent));
    } else {
        assert(df[0] == hops[1]);
        assert(joined_hops(df, names, indent, 1) == hop_text(df[0], names, indent));
        assert(joined_hops(hops, names, indent, 1) == hop_text(hops[0], names, indent));
    }
}

proof fn lemma_joined_all(hops: Seq<RelayHop>, names: Seq<Seq<char>>, indent: nat)
    ensures
        joined_hops(hops, names, indent, hops.len()) == hops_text(hops, names, indent),
    decreases hops.len(),
{
    if hops.len() >= 2 {
        lemma_joined_front(hops, names, indent, hops.len());
        lemma_joined_all(hops.drop_first(), names, indent);
    }
}

impl RelayInstruction {
    /// The plan as text, with location names.
    pub fn display(&self, orchestra: &Orchestra) -> (r: String)
        requires
            orchestra.wf(),
            plan_known(self@, orchestra.len()),
            plan_height(self@) < usize::MAX,
        ensures
            r@ == plan_text(self@, orchestra.names(), 0),
    {
        self.display_with_indent(orchestra, 0)
    }

    /// The plan as text, with location names, indented by `indent` levels of two spaces.
    pub fn display_with_indent(&self, orchestra: &Orchestra, indent: usize) -> (r: String)
        requires
            orchestra.wf(),
            plan_known(self@, orchestra.len()),
            indent + plan_height(self@) < usize::MAX,
        ensures
            r@ == plan_text(self@, orchestra.names(), indent as nat),
        decreases self,
    {
        proof {
            reveal_strlit("");
            reveal_strlit("End");
            reveal_strlit("Relay\n");
            reveal_strlit("| → to ");
            reveal_strlit("\n");
        }
        let mut out = String::from_str("");
        push_margin(&mut out, indent);
        match self {
            RelayInstruction::End => {
                out.append("End");
            },
            RelayInstruction::Relay(v) => {
                out.append("Relay\n");
                let ghost names = orchestra.names();
                let ghost start = out@;
                let ghost all = hops_of(v@);
                proof {
                    crate::header::lemma_hops_index(v@);
                }
                let mut i: usize = 0;
                while i < v.len()
                    invariant
                        *self == RelayInstruction::Relay(*v),
                        orchestra.wf(),
                        names == orchestra.names(),
                        indent + plan_height(self@) < usize::MAX,
                        plan_height(self@) == 1 + hops_height(all),
                        all == hops_of(v@),
                        all.len() == v@.len(),
                        forall|k: int| 0 <= k < v@.len() ==> #[trigger] all[k] == (RelayHop {
                            sender: v@[k].sender,
                            destination: v@[k].destination,
                            next: plan_of(v@[k].relay_instruction),
                        }),
                        hops_known(all, orchestra.len()),
                        i <= v.len(),
                        out@ == start + joined_hops(all, names, indent as nat, i as nat),
                    decreases v.len() - i,
                {
                    proof {
                        reveal_strlit("\n");
                        reveal_strlit("| → to ");
                        lemma_hops_known_each(all, orchestra.len(), i as int);
                        lemma_hops_height_each(all, i as int);
                    }
                    let ghost before = out@;
                    if i > 0 {
                        out.append("\n");
                    }
                    let ghost mid = out@;
                    let o = &v[i];
                    push_margin(&mut out, indent);
                    out.append("| → to ");
                    let name = orchestra.location_name(o.destination);
                    out.append(name.as_str());
                    out.append("\n");
                    proof {
                        assert(decreases_to!(*self => (*self)->Relay_0));
                        assert((*self)->Relay_0 == *v);
                        assert(decreases_to!(*v => v@));
                        assert(decreases_to!(v@ => v@[i as int]));
                        assert(decreases_to!(v@[i as int] => v@[i as int].relay_instruction));
                    }
                    let sub = o.relay_instruction.display_with_indent(orchestra, indent + 1);
                    out.append(sub.as_str());
                    proof {
                        assert(out@ == mid + hop_text(all[i as int], names, indent as nat));
                        if i > 0 {
                            assert(mid == before + "\n"@);
                        } else {
                            assert(mid == before);
                        }
                    }
                    i = i + 1;
                }
                proof {
                    lemma_joined_all(all, names, indent as nat);
                }
            },
        }
        out
    }
}

} // verus!
