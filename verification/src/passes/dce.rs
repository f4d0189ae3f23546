//! Dead-code elimination: the function-wide naive pass, and the local pass
//! that removes dead stores inside each basic block.
use crate::ast::{
    block_partition, block_views, is_block_partition, lemma_is_the_partition, names, views, BasicBlock, Function, InstrView, Instruction,
    Program,
};
use crate::passes::name_map::{pending_get, pending_insert, pending_remove, pmap};
use vstd::prelude::*;

verus! {

/// `name` is read by some instruction of `fi`.
pub open spec fn is_used(fi: Seq<InstrView>, name: Seq<char>) -> bool {
    exists|i: int, j: int| 0 <= i < fi.len() && 0 <= j < fi[i].uses().len() && #[trigger] fi[i].uses()[j] == name
}

/// The naive pass keeps an instruction when it is not pure, or when its
/// result is read somewhere in the function.
pub open spec fn naive_keeps(fi: Seq<InstrView>, x: InstrView) -> bool {
    !x.is_pure() || (x.result() matches Some(r) && is_used(fi, r))
}

/// The body of a function after the naive pass.
pub open spec fn naive_dce(fi: Seq<InstrView>) -> Seq<InstrView> {
    fi.filter(|x: InstrView| naive_keeps(fi, x))
}

/// Whether `v` holds a name with the text of `x`.
pub fn contains_name(v: &Vec<String>, x: &String) -> (r: bool)
    ensures
        r == names(*v).contains(x@),
{
    let mut i: usize = 0;
    while i < v.len()
        invariant
            i <= v@.len(),
            forall|k: int| 0 <= k < i ==> names(*v)[k] != x@,
        decreases v@.len() - i,
    {
        if v[i] == *x {
            assert(names(*v)[i as int] == x@);
            return true;
        }
        i += 1;
    }
    false
}

/// Every name that some instruction reads.
pub fn collect_uses(instrs: &Vec<Instruction>) -> (r: Vec<String>)
    ensures
        forall|name: Seq<char>| #[trigger] names(r).contains(name) <==> is_used(views(instrs@), name),
{
    let ghost fi = views(instrs@);
    let mut used: Vec<String> = Vec::new();
    let mut i: usize = 0;
    while i < instrs.len()
        invariant
            fi == views(instrs@),
            i <= instrs@.len(),
            forall|name: Seq<char>| #[trigger] names(used).contains(name) <==> exists|a: int, b: int|
                0 <= a < i && 0 <= b < fi[a].uses().len() && #[trigger] fi[a].uses()[b] == name,
        decreases instrs@.len() - i,
    {
        let uses = instrs[i].get_use_list();
        let ghost used0 = names(used);
        let mut j: usize = 0;
        while j < uses.len()
            invariant
                fi == views(instrs@),
                i < instrs@.len(),
                names(uses) == fi[i as int].uses(),
                j <= uses@.len(),
                forall|name: Seq<char>| #[trigger] names(used).contains(name) <==> (used0.contains(name)
                    || exists|b: int| 0 <= b < j && names(uses)[b] == name),
            decreases uses@.len() - j,
        {
            let ghost before = names(used);
            used.push(uses[j].clone());
            assert(names(used) =~= before.push(uses@[j as int]@));
            assert forall|name: Seq<char>| #[trigger] names(used).contains(name) <==> (used0.contains(name)
                || exists|b: int| 0 <= b < j + 1 && names(uses)[b] == name) by {
                if names(used).contains(name) {
                    let q = choose|q: int| 0 <= q < names(used).len() && names(used)[q] == name;
                    if q < before.len() {
                        assert(before[q] == name);
                        assert(before.contains(name));
                    } else {
                        assert(names(uses)[j as int] == name);
                    }
                }
                if used0.contains(name) || exists|b: int| 0 <= b < j + 1 && names(uses)[b] == name {
                    if used0.contains(name) || exists|b: int| 0 <= b < j && names(uses)[b] == name {
                        assert(before.contains(name));
                        let q = choose|q: int| 0 <= q < before.len() && before[q] == name;
                        assert(names(used)[q] == name);
                    } else {
                        assert(names(uses)[j as int] == name);
                        assert(names(used)[names(used).len() - 1] == name);
                    }
                }
            }
            j += 1;
        }
        assert forall|name: Seq<char>| #[trigger] names(used).contains(name) <==> exists|a: int, b: int|
            0 <= a < i + 1 && 0 <= b < fi[a].uses().len() && #[trigger] fi[a].uses()[b] == name by {
            if exists|b: int| 0 <= b < uses@.len() && names(uses)[b] == name {
                let b = choose|b: int| 0 <= b < uses@.len() && names(uses)[b] == name;
                assert(fi[i as int].uses()[b] == name);
            }
            if exists|a: int, b: int| 0 <= a < i + 1 && 0 <= b < fi[a].uses().len() && #[trigger] fi[a].uses()[b] == name {
                let (a, b) = choose|a: int, b: int| 0 <= a < i + 1 && 0 <= b < fi[a].uses().len() && #[trigger] fi[a].uses()[b] == name;
                if a == i {
                    assert(names(uses)[b] == name);
                }
            }
        }
        i += 1;
    }
    used
}

/// The body of a function with every instruction dropped that is pure and
/// whose result no instruction reads.
pub fn naive_dce_instrs(instrs: &Vec<Instruction>) -> (r: Vec<Instruction>)
    ensures
        views(r@) == naive_dce(views(instrs@)),
{
    let ghost fi = views(instrs@);
    let ghost keep = |x: InstrView| naive_keeps(fi, x);
    let used = collect_uses(instrs);
    let mut kept: Vec<Instruction> = Vec::new();
    let mut i: usize = 0;
    while i < instrs.len()
        invariant
            fi == views(instrs@),
            keep == (|x: InstrView| naive_keeps(fi, x)),
            forall|name: Seq<char>| #[trigger] names(used).contains(name) <==> is_used(fi, name),
            i <= instrs@.len(),
            views(kept@) == fi.take(i as int).filter(keep),
        decreases instrs@.len() - i,
    {
        let inst = &instrs[i];
        let keep_it = if !inst.has_no_side_effects() {
            true
        } else {
            match inst.get_result() {
                Some(result) => contains_name(&used, &result),
                None => false,
            }
        };
        assert(keep_it == keep(fi[i as int]));
        proof {
            reveal_with_fuel(Seq::<_>::filter, 1);
            assert(fi.take(i + 1).drop_last() =~= fi.take(i as int));
        }
        if keep_it {
            let ghost before = views(kept@);
            kept.push(inst.clone());
            assert(views(kept@) =~= before.push(fi[i as int]));
        }
        i += 1;
    }
    assert(fi.take(instrs@.len() as int) =~= fi);
    kept
}

/// Function-wide naive dead-code elimination: in each function, drops every
/// pure instruction whose result is read nowhere in that function. The
/// result tells whether the last function of the program lost an
/// instruction (false for a program without functions).
pub fn naive_dce_pass(program: &mut Program) -> (changed: bool)
    ensures
        final(program).functions@.len() == old(program).functions@.len(),
        forall|k: int|
            0 <= k < old(program).functions@.len() ==> {
                let f0 = #[trigger] old(program).functions@[k];
                let f1 = final(program).functions@[k];
                &&& views(f1.instrs@) == naive_dce(views(f0.instrs@))
                &&& f1.name == f0.name
                &&& f1.args == f0.args
                &&& f1.return_type == f0.return_type
            },
        changed == (old(program).functions@.len() > 0 && ({
            let last = old(program).functions@.last();
            naive_dce(views(last.instrs@)).len() != last.instrs@.len()
        })),
{
    let mut changed: bool = false;
    let n = program.functions.len();
    let mut k: usize = 0;
    while k < n
        invariant
            n == old(program).functions@.len(),
            program.functions@.len() == n,
            k <= n,
            forall|m: int|
                0 <= m < k ==> {
                    let f0 = #[trigger] old(program).functions@[m];
                    let f1 = program.functions@[m];
                    &&& views(f1.instrs@) == naive_dce(views(f0.instrs@))
                    &&& f1.name == f0.name
                    &&& f1.args == f0.args
                    &&& f1.return_type == f0.return_type
                },
            forall|m: int| k <= m < n ==> #[trigger] program.functions@[m] == old(program).functions@[m],
            changed == (k > 0 && ({
                let f0 = old(program).functions@[k - 1];
                naive_dce(views(f0.instrs@)).len() != f0.instrs@.len()
            })),
        decreases n - k,
    {
        let before = program.functions[k].instrs.len();
        let kept = naive_dce_instrs(&program.functions[k].instrs);
        program.functions[k].instrs = kept;
        changed = program.functions[k].instrs.len() != before;
        k += 1;
    }
    changed
}

/// The dead-store scan over the first `n` instructions of a block: the
/// pending pure definitions (name to instruction index) whose value no
/// later instruction has read yet, and the indices found dead so far. A
/// definition is dead when its name is defined again before any read.
/// Labels are skipped.
pub open spec fn dse_scan(b: Seq<InstrView>, n: nat) -> (Map<Seq<char>, int>, Set<int>)
    decreases n,
{
    if n == 0 || n > b.len() {
        (Map::empty(), Set::empty())
    } else {
        let (pending, dead) = dse_scan(b, (n - 1) as nat);
        let x = b[n - 1];
        if x.is_label() {
            (pending, dead)
        } else {
            let p1 = pending.remove_keys(x.uses().to_set());
            match x.result() {
                Some(r) => {
                    let dead2 = if p1.dom().contains(r) {
                        dead.insert(p1[r])
                    } else {
                        dead
                    };
                    let p2 = if x.is_pure() {
                        p1.insert(r, n - 1)
                    } else {
                        p1
                    };
                    (p2, dead2)
                },
                None => (p1, dead),
            }
        }
    }
}

/// The indices of the dead stores of a block.
pub open spec fn dead_stores(b: Seq<InstrView>) -> Set<int> {
    dse_scan(b, b.len()).1
}

/// `s` without the elements at the indices in `d`, in order.
pub open spec fn without_indices(s: Seq<InstrView>, d: Set<int>) -> Seq<InstrView>
    decreases s.len(),
{
    if s.len() == 0 {
        s
    } else {
        let rest = without_indices(s.drop_last(), d);
        if d.contains(s.len() - 1) {
            rest
        } else {
            rest.push(s.last())
        }
    }
}

/// Every pending definition and every dead store found by the scan is a
/// pure, non-label instruction that lies before the scan position.
pub proof fn lemma_dse_scan_facts(b: Seq<InstrView>, n: nat)
    requires
        n <= b.len(),
    ensures
        forall|k: Seq<char>| #[trigger] dse_scan(b, n).0.dom().contains(k) ==> 0 <= dse_scan(b, n).0[k] < n
            && b[dse_scan(b, n).0[k]].is_pure() && !b[dse_scan(b, n).0[k]].is_label(),
        forall|i: int| #[trigger] dse_scan(b, n).1.contains(i) ==> 0 <= i && i + 1 < n && b[i].is_pure() && !b[i].is_label(),
    decreases n,
{
    if n > 0 {
        lemma_dse_scan_facts(b, (n - 1) as nat);
        let (pending, dead) = dse_scan(b, (n - 1) as nat);
        let x = b[n - 1];
        if !x.is_label() {
            let p1 = pending.remove_keys(x.uses().to_set());
            assert forall|k: Seq<char>| #[trigger] p1.dom().contains(k) implies 0 <= p1[k] < n - 1
                && b[p1[k]].is_pure() && !b[p1[k]].is_label() by {
                assert(pending.dom().contains(k));
            }
            match x.result() {
                Some(r) => {
                    let p2 = if x.is_pure() { p1.insert(r, n - 1) } else { p1 };
                    assert forall|k: Seq<char>| #[trigger] p2.dom().contains(k) implies 0 <= p2[k] < n
                        && b[p2[k]].is_pure() && !b[p2[k]].is_label() by {
                        if x.is_pure() && k == r {
                        } else {
                            assert(p1.dom().contains(k));
                        }
                    }
                },
                None => {},
            }
        }
    }
}

/// What the dead-store scan keeps track of is never read: a pending
/// definition of `k` is read by nothing after it so far, and a definition
/// found dead is redefined later in the block with no read of its name in
/// between, the redefining instruction included.
proof fn lemma_dse_scan_unread(b: Seq<InstrView>, n: nat)
    requires
        n <= b.len(),
    ensures
        forall|k: Seq<char>| #[trigger] dse_scan(b, n).0.dom().contains(k) ==> 0 <= dse_scan(b, n).0[k] < n
            && b[dse_scan(b, n).0[k]].result() == Some(k) && forall|m: int|
            dse_scan(b, n).0[k] < m < n ==> !(#[trigger] b[m].uses()).contains(k),
        forall|i: int| #[trigger] dse_scan(b, n).1.contains(i) ==> 0 <= i < n && b[i].result() is Some && exists|j: int|
            i < j < n && !b[j].is_label() && #[trigger] b[j].result() == b[i].result() && forall|m: int|
                i < m <= j ==> !(#[trigger] b[m].uses()).contains(b[i].result().unwrap()),
    decreases n,
{
    if n > 0 {
        lemma_dse_scan_unread(b, (n - 1) as nat);
        let (pending, dead) = dse_scan(b, (n - 1) as nat);
        let x = b[n - 1];
        if !x.is_label() {
            let p1 = pending.remove_keys(x.uses().to_set());
            assert forall|k: Seq<char>| #[trigger] p1.dom().contains(k) implies 0 <= p1[k] < n - 1 && b[p1[k]].result() == Some(k)
                && forall|m: int| p1[k] < m < n ==> !(#[trigger] b[m].uses()).contains(k) by {
                assert(pending.dom().contains(k));
                assert(!x.uses().to_set().contains(k));
                assert forall|m: int| p1[k] < m < n implies !(#[trigger] b[m].uses()).contains(k) by {
                    if m == n - 1 {
                        if x.uses().contains(k) {
                            assert(x.uses().to_set().contains(k));
                        }
                    }
                }
            }
            match x.result() {
                Some(r) => {
                    if p1.dom().contains(r) {
                        let p = p1[r];
                        assert(b[n - 1].result() == b[p].result());
                        assert forall|m: int| p < m <= n - 1 implies !(#[trigger] b[m].uses()).contains(b[p].result().unwrap()) by {}
                    }
                },
                None => {},
            }
        } else {
            assert forall|k: Seq<char>| #[trigger] pending.dom().contains(k) implies forall|m: int|
                pending[k] < m < n ==> !(#[trigger] b[m].uses()).contains(k) by {
                assert(x.uses() =~= Seq::<Seq<char>>::empty());
            }
        }
    }
}

/// A definition that dead-store elimination removes is never read: it
/// defines a name that a later instruction of the block defines again, and
/// no instruction from it up to that one (that one included) reads the
/// name.
pub proof fn lemma_dead_store_never_read(b: Seq<InstrView>, i: int)
    requires
        dead_stores(b).contains(i),
    ensures
        b[i].result() is Some,
        exists|j: int|
            i < j < b.len() && !b[j].is_label() && #[trigger] b[j].result() == b[i].result() && forall|m: int|
                i < m <= j ==> !(#[trigger] b[m].uses()).contains(b[i].result().unwrap()),
{
    lemma_dse_scan_unread(b, b.len());
}

/// The dead stores of a block are pure instructions of the block.
pub proof fn lemma_dead_stores_are_pure(b: Seq<InstrView>)
    ensures
        forall|i: int| #[trigger] dead_stores(b).contains(i) ==> 0 <= i && i + 1 < b.len() && b[i].is_pure() && !b[i].is_label(),
{
    lemma_dse_scan_facts(b, b.len());
}

pub proof fn lemma_without_indices_len(s: Seq<InstrView>, d: Set<int>)
    ensures
        without_indices(s, d).len() <= s.len(),
        (exists|i: int| 0 <= i < s.len() && #[trigger] d.contains(i)) ==> without_indices(s, d).len() < s.len(),
    decreases s.len(),
{
    if s.len() > 0 {
        lemma_without_indices_len(s.drop_last(), d);
        if exists|i: int| 0 <= i < s.len() && #[trigger] d.contains(i) {
            let i = choose|i: int| 0 <= i < s.len() && #[trigger] d.contains(i);
            if i < s.len() - 1 {
                assert(0 <= i < s.drop_last().len() && d.contains(i));
            }
        }
    }
}

/// A block with its dead stores removed until none is left.
pub open spec fn dse_fix(b: Seq<InstrView>) -> Seq<InstrView>
    decreases b.len(),
{
    if dead_stores(b).is_empty() {
        b
    } else {
        proof {
            lemma_dead_stores_are_pure(b);
            let i = dead_stores(b).choose();
            assert(dead_stores(b).contains(i));
            lemma_without_indices_len(b, dead_stores(b));
        }
        dse_fix(without_indices(b, dead_stores(b)))
    }
}

pub proof fn lemma_without_nothing(s: Seq<InstrView>, d: Set<int>)
    requires
        forall|i: int| 0 <= i < s.len() ==> !#[trigger] d.contains(i),
    ensures
        without_indices(s, d) == s,
    decreases s.len(),
{
    if s.len() > 0 {
        lemma_without_nothing(s.drop_last(), d);
        assert(s.drop_last().push(s.last()) =~= s);
    }
}

pub proof fn lemma_dse_fix_len(b: Seq<InstrView>)
    ensures
        dse_fix(b).len() <= b.len(),
        !dead_stores(b).is_empty() ==> dse_fix(b).len() < b.len(),
        dead_stores(dse_fix(b)).is_empty(),
    decreases b.len(),
{
    if !dead_stores(b).is_empty() {
        lemma_dead_stores_are_pure(b);
        let i = dead_stores(b).choose();
        assert(dead_stores(b).contains(i));
        lemma_without_indices_len(b, dead_stores(b));
        lemma_dse_fix_len(without_indices(b, dead_stores(b)));
    }
}

/// Inside a block, no label follows the first instruction and no `jmp` or
/// `br` precedes the last.
pub open spec fn block_inner(b: Seq<InstrView>) -> bool {
    forall|j: int| 0 < j < b.len() ==> !(#[trigger] b[j]).is_label() && !b[j - 1].is_control()
}

/// Dropping instructions from a block without `jmp` or `br` leaves none.
proof fn lemma_without_no_control(s: Seq<InstrView>, d: Set<int>)
    requires
        forall|i: int| 0 <= i < s.len() ==> !(#[trigger] s[i]).is_control(),
    ensures
        forall|j: int| 0 <= j < without_indices(s, d).len() ==> !(#[trigger] without_indices(s, d)[j]).is_control(),
    decreases s.len(),
{
    if s.len() > 0 {
        let t = s.drop_last();
        assert forall|i: int| 0 <= i < t.len() implies !(#[trigger] t[i]).is_control() by {
            assert(t[i] == s[i]);
        }
        lemma_without_no_control(t, d);
        let rest = without_indices(t, d);
        let w = without_indices(s, d);
        if !d.contains(s.len() - 1) {
            assert(w == rest.push(s.last()));
            assert forall|j: int| 0 <= j < w.len() implies !(#[trigger] w[j]).is_control() by {
                if j < rest.len() {
                    assert(w[j] == rest[j]);
                } else {
                    assert(w[j] == s[s.len() - 1]);
                }
            }
        } else {
            assert(w == rest);
        }
    }
}

/// A first or last instruction that is kept stays first or last.
proof fn lemma_without_ends(s: Seq<InstrView>, d: Set<int>)
    ensures
        without_indices(s, d).len() <= s.len(),
        s.len() > 0 && !d.contains(s.len() - 1) ==> without_indices(s, d).len() > 0 && without_indices(s, d).last() == s.last(),
        s.len() > 0 && !d.contains(0) ==> without_indices(s, d).len() > 0 && without_indices(s, d)[0] == s[0],
    decreases s.len(),
{
    if s.len() > 0 {
        let t = s.drop_last();
        lemma_without_ends(t, d);
        if s.len() > 1 {
            assert(t[0] == s[0]);
        }
    }
}

/// Dropping instructions keeps what was inside a block inside it.
#[verifier::spinoff_prover]
#[verifier::rlimit(40)]
proof fn lemma_without_inner(s: Seq<InstrView>, d: Set<int>)
    requires
        block_inner(s),
    ensures
        block_inner(without_indices(s, d)),
    decreases s.len(),
{
    if s.len() > 0 {
        let t = s.drop_last();
        let rest = without_indices(t, d);
        let w = without_indices(s, d);
        assert forall|i: int| 0 < i < t.len() implies !(#[trigger] t[i]).is_label() && !t[i - 1].is_control() by {
            assert(t[i] == s[i]);
            assert(t[i - 1] == s[i - 1]);
        }
        lemma_without_inner(t, d);
        if d.contains(s.len() - 1) {
            assert(w == rest);
        } else {
            assert forall|i: int| 0 <= i < t.len() implies !(#[trigger] t[i]).is_control() by {
                assert(!s[i + 1].is_label() && !s[(i + 1) - 1].is_control());
                assert(t[i] == s[i]);
            }
            lemma_without_no_control(t, d);
            lemma_without_ends(t, d);
            assert(w == rest.push(s.last()));
            assert forall|j: int| 0 < j < w.len() implies !(#[trigger] w[j]).is_label() && !w[j - 1].is_control() by {
                assert(w[j - 1] == rest[j - 1]);
                if j < rest.len() {
                    assert(w[j] == rest[j]);
                } else {
                    assert(w[j] == s[s.len() - 1]);
                    assert(!s[s.len() - 1].is_label());
                }
            }
        }
    }
}

/// Removing dead stores until none is left keeps the shape of a block.
proof fn lemma_dse_fix_shape(b: Seq<InstrView>)
    requires
        b.len() > 0,
        block_inner(b),
    ensures
        dse_fix(b).len() > 0,
        dse_fix(b).last() == b.last(),
        b[0].is_label() ==> dse_fix(b)[0] == b[0],
        block_inner(dse_fix(b)),
    decreases b.len(),
{
    if !dead_stores(b).is_empty() {
        let d = dead_stores(b);
        lemma_dead_stores_are_pure(b);
        let i = d.choose();
        assert(d.contains(i));
        lemma_without_indices_len(b, d);
        lemma_without_ends(b, d);
        lemma_without_inner(b, d);
        let w = without_indices(b, d);
        assert(!d.contains(b.len() - 1));
        if b[0].is_label() {
            assert(!d.contains(0));
        }
        lemma_dse_fix_shape(w);
    }
}

/// The body after local dead-store elimination has no dead store under its
/// own cut into basic blocks, so running the elimination again changes
/// nothing.
pub proof fn lemma_local_dce_leaves_no_dead_store(fi: Seq<InstrView>)
    requires
        is_block_partition(block_partition(fi)),
    ensures
        !has_dead_store(local_dce(fi)),
{
    let bs = block_partition(fi);
    assert(is_block_partition(bs));
    let fixed = bs.map_values(|b: Seq<InstrView>| dse_fix(b));
    assert forall|k: int| 0 <= k < bs.len() implies {
        &&& (#[trigger] fixed[k]).len() > 0
        &&& fixed[k].last() == bs[k].last()
        &&& (bs[k][0].is_label() ==> fixed[k][0] == bs[k][0])
        &&& block_inner(fixed[k])
        &&& dead_stores(fixed[k]).is_empty()
    } by {
        assert(bs[k].len() > 0);
        assert forall|j: int| 0 < j < bs[k].len() implies !(#[trigger] bs[k][j]).is_label() && !bs[k][j - 1].is_control() by {
            assert(!bs[k][j].is_label() && !bs[k][j - 1].is_control());
        }
        lemma_dse_fix_shape(bs[k]);
        lemma_dse_fix_len(bs[k]);
    }
    assert forall|k: int, j: int| 0 <= k < fixed.len() && 0 < j < fixed[k].len() implies !(#[trigger] fixed[k][j]).is_label()
        && !fixed[k][j - 1].is_control() by {
        assert(block_inner(fixed[k]));
    }
    assert forall|k: int| 0 < k < fixed.len() implies (#[trigger] fixed[k])[0].is_label() || fixed[k - 1].last().is_control() by {
        assert(bs[k][0].is_label() || bs[k - 1].last().is_control());
        assert(fixed[k - 1].last() == bs[k - 1].last());
    }
    assert(is_block_partition(fixed));
    lemma_is_the_partition(fixed, local_dce(fi));
}

/// The indices listed in `d`, as a set.
pub open spec fn index_set(d: Seq<usize>) -> Set<int> {
    Set::new(|x: int| exists|t: int| 0 <= t < d.len() && d[t] == x)
}

pub proof fn lemma_index_set_push(d: Seq<usize>, x: usize)
    ensures
        index_set(d.push(x)) == index_set(d).insert(x as int),
{
    assert forall|y: int| #[trigger] index_set(d.push(x)).contains(y) <==> index_set(d).insert(x as int).contains(y) by {
        if index_set(d).contains(y) {
            let t = choose|t: int| 0 <= t < d.len() && d[t] == y;
            assert(d.push(x)[t] == y);
        }
        if y == x {
            assert(d.push(x)[d.len() as int] == y);
        }
        if index_set(d.push(x)).contains(y) {
            let t = choose|t: int| 0 <= t < d.push(x).len() && d.push(x)[t] == y;
            if t < d.len() {
                assert(d[t] == y);
            }
        }
    }
    assert(index_set(d.push(x)) =~= index_set(d).insert(x as int));
}

/// Copies `instrs` without the instructions at the indices listed in `dead`.
pub fn drop_indices(instrs: &Vec<Instruction>, dead: &Vec<usize>) -> (kept: Vec<Instruction>)
    ensures
        views(kept@) == without_indices(views(instrs@), index_set(dead@)),
{
    let ghost b = views(instrs@);
    let ghost d = index_set(dead@);
    let n = instrs.len();
    let mut kept: Vec<Instruction> = Vec::new();
    let mut i: usize = 0;
    while i < n
        invariant
            b == views(instrs@),
            n == instrs@.len(),
            i <= n,
            d == index_set(dead@),
            views(kept@) == without_indices(b.take(i as int), d),
        decreases n - i,
    {
        let mut is_dead = false;
        let mut t: usize = 0;
        while t < dead.len()
            invariant
                t <= dead@.len(),
                is_dead == exists|u: int| 0 <= u < t && dead@[u] == i,
            decreases dead@.len() - t,
        {
            if dead[t] == i {
                is_dead = true;
            }
            t += 1;
        }
        assert(b.take(i + 1).drop_last() =~= b.take(i as int));
        assert(b.take(i + 1).last() == b[i as int]);
        if !is_dead {
            let ghost before = views(kept@);
            kept.push(instrs[i].clone());
            assert(views(kept@) =~= before.push(b[i as int]));
        }
        i += 1;
    }
    assert(b.take(n as int) =~= b);
    kept
}

/// Removes the dead stores of a block once: every pure definition whose
/// name is defined again, later in the block, before any instruction reads
/// it. Returns whether an instruction was removed.
pub fn dce_bb_dead_store(basic_block: &mut BasicBlock) -> (changed: bool)
    ensures
        final(basic_block).ins() == without_indices(old(basic_block).ins(), dead_stores(old(basic_block).ins())),
        changed == !dead_stores(old(basic_block).ins()).is_empty(),
        final(basic_block).label == old(basic_block).label,
        final(basic_block).out_labels == old(basic_block).out_labels,
        final(basic_block).in_bb_indices == old(basic_block).in_bb_indices,
        final(basic_block).out_bb_indices == old(basic_block).out_bb_indices,
        final(basic_block).immediate_dominator_index == old(basic_block).immediate_dominator_index,
{
    let ghost b = basic_block.ins();
    let n = basic_block.instrs.len();
    let mut pending: Vec<(String, usize)> = Vec::new();
    let mut dead: Vec<usize> = Vec::new();
    let mut i: usize = 0;
    while i < n
        invariant
            b == basic_block.ins(),
            n == basic_block.instrs@.len(),
            i <= n,
            pmap(pending@) == dse_scan(b, i as nat).0,
            forall|x: int| #[trigger] dse_scan(b, i as nat).1.contains(x) <==> exists|t: int|
                0 <= t < dead@.len() && dead@[t] == x,
        decreases n - i,
    {
        let inst = &basic_block.instrs[i];
        assert(inst@ == b[i as int]);
        let ghost scan0 = dse_scan(b, i as nat);
        if !inst.is_label() {
            let uses = inst.get_use_list();
            let mut j: usize = 0;
            while j < uses.len()
                invariant
                    j <= uses@.len(),
                    pmap(pending@) == scan0.0.remove_keys(names(uses).take(j as int).to_set()),
                decreases uses@.len() - j,
            {
                pending_remove(&mut pending, &uses[j]);
                assert(names(uses).take(j + 1).to_set() =~= names(uses).take(j as int).to_set().insert(uses@[j as int]@)) by {
                    let s0 = names(uses).take(j as int);
                    let s1 = names(uses).take(j + 1);
                    assert(s1 =~= s0.push(uses@[j as int]@));
                    assert forall|y: Seq<char>| s1.contains(y) <==> s0.contains(y) || y == uses@[j as int]@ by {
                        if s1.contains(y) {
                            let q = choose|q: int| 0 <= q < s1.len() && s1[q] == y;
                            if q < j {
                                assert(s0[q] == y);
                            }
                        }
                        if s0.contains(y) {
                            let q = choose|q: int| 0 <= q < s0.len() && s0[q] == y;
                            assert(s1[q] == y);
                        }
                        if y == uses@[j as int]@ {
                            assert(s1[j as int] == y);
                        }
                    }
                }
                assert(pmap(pending@) =~= scan0.0.remove_keys(names(uses).take(j + 1).to_set()));
                j += 1;
            }
            assert(names(uses).take(uses@.len() as int) =~= names(uses));
            assert(names(uses) == b[i as int].uses());
            let ghost dead0 = dead@;
            let ghost p1 = pmap(pending@);
            assert(p1 == scan0.0.remove_keys(b[i as int].uses().to_set()));
            match inst.get_result() {
                Some(result) => {
                    match pending_get(&pending, &result) {
                        Some(idx) => {
                            dead.push(idx);
                            assert(dse_scan(b, (i + 1) as nat).1 == scan0.1.insert(idx as int));
                            assert forall|x: int| #[trigger] dse_scan(b, (i + 1) as nat).1.contains(x) <==> exists|t: int|
                                0 <= t < dead@.len() && dead@[t] == x by {
                                if exists|t: int| 0 <= t < dead0.len() && dead0[t] == x {
                                    let t = choose|t: int| 0 <= t < dead0.len() && dead0[t] == x;
                                    assert(dead@[t] == x);
                                }
                                if x == idx {
                                    assert(dead@[dead@.len() - 1] == x);
                                }
                                if exists|t: int| 0 <= t < dead@.len() && dead@[t] == x {
                                    let t = choose|t: int| 0 <= t < dead@.len() && dead@[t] == x;
                                    if t < dead0.len() {
                                        assert(dead0[t] == x);
                                    }
                                }
                            }
                        },
                        None => {},
                    }
                    if inst.has_no_side_effects() {
                        pending_insert(&mut pending, result, i);
                    }
                },
                None => {},
            }
        }
        i += 1;
    }
    let ghost d = dse_scan(b, n as nat).1;
    let kept = drop_indices(&basic_block.instrs, &dead);
    assert(index_set(dead@) =~= d);
    let changed = !dead.is_empty();
    assert(changed == !d.is_empty()) by {
        if dead@.len() > 0 {
            assert(d.contains(dead@[0] as int));
        }
        if !d.is_empty() {
            let x = d.choose();
            assert(d.contains(x));
        }
    }
    basic_block.instrs = kept;
    changed
}

/// The body of a function after local dead-store elimination: each basic
/// block loses its dead stores until it has none.
pub open spec fn local_dce(fi: Seq<InstrView>) -> Seq<InstrView> {
    block_partition(fi).map_values(|b: Seq<InstrView>| dse_fix(b)).flatten()
}

/// Whether some basic block of the body has a dead store.
pub open spec fn has_dead_store(fi: Seq<InstrView>) -> bool {
    exists|k: int| 0 <= k < block_partition(fi).len() && !dead_stores(#[trigger] block_partition(fi)[k]).is_empty()
}

/// Local dead-store elimination on one function; returns whether it changed.
fn dce_function(function: &mut Function) -> (changed: bool)
    ensures
        changed == has_dead_store(views(old(function).instrs@)),
        views(final(function).instrs@) == local_dce(views(old(function).instrs@)),
        !has_dead_store(views(final(function).instrs@)),
        !changed ==> final(function).instrs == old(function).instrs,
        final(function).name == old(function).name,
        final(function).args == old(function).args,
        final(function).return_type == old(function).return_type,
{
    broadcast use Seq::lemma_flatten_push;

    let mut changed: bool = false;
    let mut basic_blocks = function.get_basic_blocks();
    let ghost bs = block_views(basic_blocks@);
    let ghost fixed = bs.map_values(|b: Seq<InstrView>| dse_fix(b));
    proof {
        lemma_local_dce_leaves_no_dead_store(views(function.instrs@));
    }
    let nb = basic_blocks.len();
    let mut k: usize = 0;
    while k < nb
        invariant
            nb == basic_blocks@.len(),
            bs.len() == nb,
            fixed == bs.map_values(|b: Seq<InstrView>| dse_fix(b)),
            k <= nb,
            forall|m: int| 0 <= m < k ==> (#[trigger] basic_blocks@[m]).ins() == fixed[m],
            forall|m: int| k <= m < nb ==> (#[trigger] basic_blocks@[m]).ins() == bs[m],
            changed == exists|m: int| 0 <= m < k && !dead_stores(#[trigger] bs[m]).is_empty(),
            function.name == old(function).name,
            function.args == old(function).args,
            function.return_type == old(function).return_type,
            function.instrs == old(function).instrs,
        decreases nb - k,
    {
        let ghost snap = basic_blocks@;
        let ghost cur0 = basic_blocks@[k as int].ins();
        let mut c = dce_bb_dead_store(&mut basic_blocks[k]);
        proof {
            if c {
                lemma_dead_stores_are_pure(cur0);
                let i = dead_stores(cur0).choose();
                assert(dead_stores(cur0).contains(i));
                lemma_without_indices_len(cur0, dead_stores(cur0));
            } else {
                lemma_without_nothing(cur0, dead_stores(cur0));
            }
        }
        let changed_here = c;
        while c
            invariant
                nb == basic_blocks@.len(),
                k < nb,
                snap.len() == nb,
                forall|m: int| 0 <= m < nb && m != k ==> #[trigger] basic_blocks@[m] == snap[m],
                snap[k as int].ins() == bs[k as int],
                basic_blocks@[k as int].ins().len() <= bs[k as int].len(),
                dse_fix(basic_blocks@[k as int].ins()) == dse_fix(bs[k as int]),
                changed_here <==> basic_blocks@[k as int].ins().len() < bs[k as int].len(),
                !changed_here ==> basic_blocks@[k as int].ins() == bs[k as int],
                !c ==> dead_stores(basic_blocks@[k as int].ins()).is_empty(),
                c ==> changed_here,
                bs.len() == nb,
            decreases basic_blocks@[k as int].ins().len() + (if c { 1int } else { 0int }),
        {
            let ghost cur = basic_blocks@[k as int].ins();
            c = dce_bb_dead_store(&mut basic_blocks[k]);
            proof {
                if c {
                    lemma_dead_stores_are_pure(cur);
                    let i = dead_stores(cur).choose();
                    assert(dead_stores(cur).contains(i));
                    lemma_without_indices_len(cur, dead_stores(cur));
                } else {
                    lemma_without_nothing(cur, dead_stores(cur));
                }
            }
        }
        proof {
            lemma_dse_fix_len(bs[k as int]);
            assert(dse_fix(basic_blocks@[k as int].ins()) == basic_blocks@[k as int].ins());
        }
        changed = changed || changed_here;
        k += 1;
    }
    if changed {
        function.instrs.clear();
        let mut k: usize = 0;
        while k < nb
            invariant
                nb == basic_blocks@.len(),
                fixed.len() == nb,
                k <= nb,
                forall|m: int| k <= m < nb ==> (#[trigger] basic_blocks@[m]).ins() == fixed[m],
                views(function.instrs@) == fixed.take(k as int).flatten(),
                function.name == old(function).name,
                function.args == old(function).args,
                function.return_type == old(function).return_type,
            decreases nb - k,
        {
            let ghost before = function.instrs@;
            let ghost added = basic_blocks@[k as int].instrs@;
            assert(views(added) == fixed[k as int]);
            function.instrs.append(&mut basic_blocks[k].instrs);
            assert(fixed.take(k + 1) =~= fixed.take(k as int).push(fixed[k as int]));
            proof {
                fixed.take(k as int).lemma_flatten_push(fixed[k as int]);
            }
            assert(function.instrs@ == before + added);
            assert(views(function.instrs@) =~= views(before) + views(added));
            k += 1;
        }
        assert(fixed.take(nb as int) =~= fixed);
    } else {
        assert(fixed =~= bs) by {
            assert forall|m: int| 0 <= m < nb implies fixed[m] == bs[m] by {
                assert(dead_stores(bs[m]).is_empty());
            }
        }
    }
    changed
}

/// Local dead-store elimination turns the functions `fs0` into `fs1` and
/// reports `changed`: each body loses its dead stores block by block until
/// none is left, which leaves no dead store in it; a body without dead
/// stores stays as it is; and `changed` tells whether some body had one.
pub open spec fn local_dce_result(fs0: Seq<Function>, fs1: Seq<Function>, changed: bool) -> bool {
    &&& fs1.len() == fs0.len()
    &&& forall|k: int|
        0 <= k < fs0.len() ==> {
            let f0 = #[trigger] fs0[k];
            let f1 = fs1[k];
            &&& views(f1.instrs@) == local_dce(views(f0.instrs@))
            &&& !has_dead_store(views(f1.instrs@))
            &&& !has_dead_store(views(f0.instrs@)) ==> f1.instrs == f0.instrs
            &&& f1.name == f0.name
            &&& f1.args == f0.args
            &&& f1.return_type == f0.return_type
        }
    &&& changed == exists|k: int| 0 <= k < fs0.len() && has_dead_store(views(#[trigger] fs0[k].instrs@))
}

/// Running local dead-store elimination a second time changes nothing and
/// reports no change.
pub proof fn lemma_local_dce_twice(fs0: Seq<Function>, fs1: Seq<Function>, fs2: Seq<Function>, c1: bool, c2: bool)
    requires
        local_dce_result(fs0, fs1, c1),
        local_dce_result(fs1, fs2, c2),
    ensures
        !c2,
        fs2 == fs1,
{
    assert forall|k: int| 0 <= k < fs1.len() implies !has_dead_store(views(#[trigger] fs1[k].instrs@)) by {
        assert(fs1.len() == fs0.len());
        let f0 = fs0[k];
        assert(!has_dead_store(views(fs1[k].instrs@)));
    }
    assert forall|k: int| 0 <= k < fs1.len() implies #[trigger] fs2[k] == fs1[k] by {
        assert(!has_dead_store(views(fs1[k].instrs@)));
    }
    assert(fs2 =~= fs1);
}

/// Local dead-store elimination over every function of the program:
/// inside each basic block, repeatedly drops every pure definition whose
/// name is defined again before it is read, until no block has one. Returns
/// whether any function changed.
pub fn local_dce_pass(program: &mut Program) -> (changed: bool)
    ensures
        local_dce_result(old(program).functions@, final(program).functions@, changed),
{
    let mut changed: bool = false;
    let n = program.functions.len();
    let mut k: usize = 0;
    while k < n
        invariant
            n == old(program).functions@.len(),
            program.functions@.len() == n,
            k <= n,
            forall|m: int|
                0 <= m < k ==> {
                    let f0 = #[trigger] old(program).functions@[m];
                    let f1 = program.functions@[m];
                    &&& views(f1.instrs@) == local_dce(views(f0.instrs@))
                    &&& !has_dead_store(views(f1.instrs@))
                    &&& !has_dead_store(views(f0.instrs@)) ==> f1.instrs == f0.instrs
                    &&& f1.name == f0.name
                    &&& f1.args == f0.args
                    &&& f1.return_type == f0.return_type
                },
            forall|m: int| k <= m < n ==> #[trigger] program.functions@[m] == old(program).functions@[m],
            changed == exists|m: int| 0 <= m < k && has_dead_store(views(#[trigger] old(program).functions@[m].instrs@)),
        decreases n - k,
    {
        let c = dce_function(&mut program.functions[k]);
        changed = changed || c;
        k += 1;
    }
    changed
}

/// The naive pass keeps every instruction that has an effect.
pub proof fn lemma_naive_keeps_effects(fi: Seq<InstrView>, i: int)
    requires
        0 <= i < fi.len(),
        !fi[i].is_pure(),
    ensures
        naive_dce(fi).contains(fi[i]),
{
    fi.lemma_filter_contains(|x: InstrView| naive_keeps(fi, x), i);
}

/// Every instruction the naive pass keeps is an effectful instruction or
/// defines a name that some instruction reads.
pub proof fn lemma_naive_kept_are_needed(fi: Seq<InstrView>, i: int)
    requires
        0 <= i < naive_dce(fi).len(),
    ensures
        naive_keeps(fi, naive_dce(fi)[i]),
{
    fi.lemma_filter_pred(|x: InstrView| naive_keeps(fi, x), i);
}

} // verus!
