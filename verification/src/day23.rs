//! A network of computers, given as a list of links between two computers
//! each. The first part counts the sets of three computers linked to one
//! another of which one has a name that begins with `t`; the second names the
//! computers of a largest set in which every two are linked.
//!
//! Computers are numbered in the order in which the text first names them.
use vstd::prelude::*;
use vstd::string::StringSliceAdditionalSpecFns;
use vstd::utf8::{encode_utf8, valid_utf8};
use crate::text::{
    views, lines_of, lines, split_seq, split, position, find_name, copy_range, lemma_views_push,
    sorted_names, sort_names, joined_with, join_with, to_text,
};

verus! {

/// The two computers that a line links: what stands before the first `-`
/// and what stands between it and the next.
pub open spec fn link_of(line: Seq<u8>) -> Option<(Seq<u8>, Seq<u8>)> {
    let f = split_seq(line, seq![45u8]);
    if f.len() < 2 {
        None
    } else {
        Some((f[0], f[1]))
    }
}

/// The computers by name, and for each the computers it is linked to, one
/// entry for each link.
pub struct Net {
    pub names: Seq<Seq<u8>>,
    pub lists: Seq<Seq<usize>>,
}

/// The network with a computer of this name, if it had none.
pub open spec fn with_node(net: Net, name: Seq<u8>) -> Net {
    if position(net.names, name) < net.names.len() {
        net
    } else {
        Net { names: net.names.push(name), lists: net.lists.push(seq![]) }
    }
}

/// The list `i` with `j` at its end.
pub open spec fn noted(lists: Seq<Seq<usize>>, i: int, j: int) -> Seq<Seq<usize>> {
    if 0 <= i < lists.len() {
        lists.update(i, lists[i].push(j as usize))
    } else {
        lists
    }
}

/// The network with one more link.
pub open spec fn linked(net: Net, a: Seq<u8>, b: Seq<u8>) -> Net {
    let n1 = with_node(net, a);
    let i = position(n1.names, a);
    let n2 = Net { names: n1.names, lists: noted(n1.lists, i, position(with_node(n1, b).names, b)) };
    let n3 = with_node(n2, b);
    let j = position(n3.names, b);
    Net { names: n3.names, lists: noted(n3.lists, j, i) }
}

/// The network that the lines describe. `None` where a line has no `-`.
pub open spec fn net_of(ls: Seq<Seq<u8>>, net: Net) -> Option<Net>
    decreases ls.len(),
{
    if ls.len() == 0 {
        Some(net)
    } else {
        match link_of(ls[0]) {
            None => None,
            Some(l) => net_of(ls.drop_first(), linked(net, l.0, l.1)),
        }
    }
}

/// The entries of `list`, from the `i`-th on, that are not `k`.
pub open spec fn without(list: Seq<usize>, k: usize, i: int) -> Seq<usize>
    decreases list.len() - i,
{
    if 0 <= i < list.len() {
        (if list[i] != k {
            seq![list[i]]
        } else {
            seq![]
        }) + without(list, k, i + 1)
    } else {
        seq![]
    }
}

/// The triples `(key, val, net)` for the computers `net` of `nets`, from the
/// `t`-th on, whose list has `key`.
pub open spec fn closing(lists: Seq<Seq<usize>>, key: usize, val: usize, nets: Seq<usize>, t: int)
    -> Seq<(usize, usize, usize)>
    decreases nets.len() - t,
{
    if 0 <= t < nets.len() {
        (if nets[t] < lists.len() && lists[nets[t] as int].contains(key) {
            seq![(key, val, nets[t])]
        } else {
            seq![]
        }) + closing(lists, key, val, nets, t + 1)
    } else {
        seq![]
    }
}

/// The computers `vals`, from the `m`-th on, are taken in turn: `key` is
/// struck from the list of each, and each computer left on that list whose
/// own list has `key` closes a triple. Gives the lists that remain and the
/// triples found, behind `found`.
pub open spec fn around(
    lists: Seq<Seq<usize>>,
    key: usize,
    vals: Seq<usize>,
    m: int,
    found: Seq<(usize, usize, usize)>,
) -> (Seq<Seq<usize>>, Seq<(usize, usize, usize)>)
    decreases vals.len() - m,
{
    if 0 <= m < vals.len() {
        let val = vals[m];
        if val < lists.len() {
            let struck = lists.update(val as int, without(lists[val as int], key, 0));
            around(
                struck,
                key,
                vals,
                m + 1,
                found + closing(struck, key, val, struck[val as int], 0),
            )
        } else {
            around(lists, key, vals, m + 1, found)
        }
    } else {
        (lists, found)
    }
}

/// All triples, the computers from `key` on taken in turn.
pub open spec fn triples(lists: Seq<Seq<usize>>, key: int, found: Seq<(usize, usize, usize)>) -> Seq<
    (usize, usize, usize),
>
    decreases lists.len() - key,
{
    if 0 <= key < lists.len() {
        let r = around(lists, key as usize, lists[key], 0, found);
        if r.0.len() == lists.len() {
            triples(r.0, key + 1, r.1)
        } else {
            r.1
        }
    } else {
        found
    }
}

/// The name of computer `i` begins with `t`.
pub open spec fn has_t(names: Seq<Seq<u8>>, i: usize) -> bool {
    i < names.len() && names[i as int].len() > 0 && names[i as int][0] == 116
}

/// The triples, from the `i`-th on, with a computer whose name begins with `t`.
pub open spec fn with_t(names: Seq<Seq<u8>>, all: Seq<(usize, usize, usize)>, i: int) -> Seq<
    (usize, usize, usize),
>
    decreases all.len() - i,
{
    if 0 <= i < all.len() {
        (if has_t(names, all[i].0) || has_t(names, all[i].1) || has_t(names, all[i].2) {
            seq![all[i]]
        } else {
            seq![]
        }) + with_t(names, all, i + 1)
    } else {
        seq![]
    }
}

/// The answer to the first part for the text `s`.
pub open spec fn answer_one(s: Seq<u8>) -> Option<u32> {
    match net_of(lines_of(s), Net { names: seq![], lists: seq![] }) {
        None => None,
        Some(net) => {
            let n = with_t(net.names, triples(net.lists, 0, seq![]), 0).to_set().len();
            if n <= u32::MAX {
                Some(n as u32)
            } else {
                None
            }
        },
    }
}

/// Computer `i` has a link to computer `j`.
pub open spec fn adjacent(lists: Seq<Seq<usize>>, i: usize, j: usize) -> bool {
    i < lists.len() && lists[i as int].contains(j)
}

/// The entries of `s`, from the `i`-th on, that are linked to `v`, or, with
/// `linked` false, those that are not.
pub open spec fn sieved(lists: Seq<Seq<usize>>, s: Seq<usize>, v: usize, linked: bool, i: int)
    -> Seq<usize>
    decreases s.len() - i,
{
    if 0 <= i < s.len() {
        (if adjacent(lists, v, s[i]) == linked {
            seq![s[i]]
        } else {
            seq![]
        }) + sieved(lists, s, v, linked, i + 1)
    } else {
        seq![]
    }
}

/// The search of Bron and Kerbosch for the sets of computers linked each to
/// each that cannot be enlarged: `r` is such a set in the making, `p` the
/// computers that may yet join it, `x` those that have had their turn. Gives
/// the largest set found, `best` where none is larger. `None` where a set
/// would have more members than the machine can count.
pub open spec fn searched(
    lists: Seq<Seq<usize>>,
    best: Seq<usize>,
    p: Seq<usize>,
    r: Seq<usize>,
    x: Seq<usize>,
) -> Option<Seq<usize>>
    decreases usize::MAX - r.len(), 1int, 0int,
{
    if p.len() == 0 && x.len() == 0 {
        if best.len() < r.len() {
            Some(r)
        } else {
            Some(best)
        }
    } else {
        let pivot = if p.len() > 0 {
            p[0]
        } else {
            x[0]
        };
        if pivot < lists.len() {
            branched(lists, best, p, r, x, sieved(lists, p, pivot, false, 0), 0)
        } else {
            None
        }
    }
}

/// The turns of the computers `cands`, from the `i`-th on, in that search.
pub open spec fn branched(
    lists: Seq<Seq<usize>>,
    best: Seq<usize>,
    p: Seq<usize>,
    r: Seq<usize>,
    x: Seq<usize>,
    cands: Seq<usize>,
    i: int,
) -> Option<Seq<usize>>
    decreases usize::MAX - r.len(), 0int, cands.len() - i,
{
    if 0 <= i < cands.len() {
        let v = cands[i];
        if r.len() >= usize::MAX || v >= lists.len() {
            None
        } else {
            match searched(
                lists,
                best,
                sieved(lists, p, v, true, 0),
                r.push(v),
                sieved(lists, x, v, true, 0),
            ) {
                None => None,
                Some(b) => branched(lists, b, without(p, v, 0), r, x.push(v), cands, i + 1),
            }
        }
    } else {
        Some(best)
    }
}

/// The names of the computers `set`, from the `i`-th on.
pub open spec fn names_of(names: Seq<Seq<u8>>, set: Seq<usize>, i: int) -> Seq<Seq<u8>>
    decreases set.len() - i,
{
    if 0 <= i < set.len() {
        (if set[i] < names.len() {
            seq![names[set[i] as int]]
        } else {
            seq![]
        }) + names_of(names, set, i + 1)
    } else {
        seq![]
    }
}

/// The answer to the second part for the text `s`, as bytes: the names of
/// the computers of the largest set, in the order of the dictionary, with
/// commas between.
pub open spec fn answer_two(s: Seq<u8>) -> Option<Seq<u8>> {
    match net_of(lines_of(s), Net { names: seq![], lists: seq![] }) {
        None => None,
        Some(net) => match searched(
            net.lists,
            seq![],
            Seq::new(net.names.len(), |i: int| i as usize),
            seq![],
            seq![],
        ) {
            None => None,
            Some(set) => Some(joined_with(sorted_names(names_of(net.names, set, 0)), 44)),
        },
    }
}

/// The views of the lists.
pub open spec fn rows(v: Seq<Vec<usize>>) -> Seq<Seq<usize>> {
    Seq::new(v.len(), |i: int| v[i]@)
}

/// The network as it is kept: names and lists side by side.
pub struct Network {
    pub names: Vec<Vec<u8>>,
    pub lists: Vec<Vec<usize>>,
}

impl View for Network {
    type V = Net;

    open spec fn view(&self) -> Net {
        Net { names: views(self.names@), lists: rows(self.lists@) }
    }
}

impl Network {
    fn node(&mut self, name: &[u8]) -> (p: usize)
        ensures
            final(self)@ == with_node(old(self)@, name@),
            p == position(final(self)@.names, name@),
    {
        let p = find_name(&self.names, name);
        if p < self.names.len() {
            p
        } else {
            let copy = copy_range(name, 0, name.len());
            assert(copy@ =~= name@);
            proof {
                lemma_views_push(self.names@, copy);
                lemma_position_push(views(self.names@), name@);
            }
            self.names.push(copy);
            let ghost before = rows(self.lists@);
            self.lists.push(Vec::new());
            assert(rows(self.lists@) =~= before.push(seq![]));
            p
        }
    }

    fn note(&mut self, i: usize, j: usize)
        ensures
            final(self)@ == (Net {
                names: old(self)@.names,
                lists: noted(old(self)@.lists, i as int, j as int),
            }),
    {
        if i < self.lists.len() {
            let ghost before = rows(self.lists@);
            self.lists[i].push(j);
            assert(rows(self.lists@) =~= before.update(i as int, before[i as int].push(j)));
        }
    }

    fn link(&mut self, a: &[u8], b: &[u8])
        ensures
            final(self)@ == linked(old(self)@, a@, b@),
    {
        let ghost n0 = self@;
        let i = self.node(a);
        let ghost n1 = self@;
        let j0 = find_name(&self.names, b);
        proof {
            if j0 >= self.names@.len() {
                lemma_position_push(n1.names, b@);
            }
        }
        self.note(i, j0);
        let j = self.node(b);
        self.note(j, i);
    }
}

proof fn lemma_position_push(names: Seq<Seq<u8>>, name: Seq<u8>)
    requires
        position(names, name) >= names.len(),
    ensures
        position(names.push(name), name) == names.len(),
    decreases names.len(),
{
    if names.len() == 0 {
    } else {
        assert(names.push(name).drop_first() =~= names.drop_first().push(name));
        lemma_position_push(names.drop_first(), name);
    }
}

/// Reads the network that the text describes.
#[verifier::loop_isolation(false)]
fn parse_network(input: &[u8]) -> (out: Option<Network>)
    ensures
        match net_of(lines_of(input@), Net { names: seq![], lists: seq![] }) {
            Some(n) => out is Some && out->0@ == n,
            None => out is None,
        },
{
    let ls = lines(input);
    let ghost all = views(ls@);
    let mut net = Network { names: Vec::new(), lists: Vec::new() };
    assert(net@.names =~= Seq::<Seq<u8>>::empty());
    assert(net@.lists =~= Seq::<Seq<usize>>::empty());
    let ghost goal = net_of(all, net@);
    let dash: Vec<u8> = vec![45u8];
    assert(dash@ =~= seq![45u8]);
    let mut i: usize = 0;
    assert(all.skip(0) =~= all);
    while i < ls.len()
        invariant
            0 <= i <= ls@.len(),
            net_of(all.skip(i as int), net@) == goal,
        decreases ls@.len() - i,
    {
        assert(all.skip(i as int)[0] == ls@[i as int]@);
        assert(all.skip(i as int).drop_first() =~= all.skip(i + 1));
        let f = split(ls[i].as_slice(), dash.as_slice());
        assert(views(f@).len() == f@.len());
        if f.len() < 2 {
            return None;
        }
        assert(views(f@)[0] == f@[0]@);
        assert(views(f@)[1] == f@[1]@);
        net.link(f[0].as_slice(), f[1].as_slice());
        i += 1;
    }
    Some(net)
}

#[verifier::loop_isolation(false)]
fn has_index(v: &Vec<usize>, x: usize) -> (r: bool)
    ensures
        r == v@.contains(x),
{
    let mut i: usize = 0;
    while i < v.len()
        invariant
            0 <= i <= v@.len(),
            forall|k: int| 0 <= k < i ==> v@[k] != x,
        decreases v@.len() - i,
    {
        if v[i] == x {
            return true;
        }
        i += 1;
    }
    false
}

#[verifier::loop_isolation(false)]
fn strike(list: &Vec<usize>, k: usize) -> (out: Vec<usize>)
    ensures
        out@ == without(list@, k, 0),
{
    let mut out: Vec<usize> = Vec::new();
    let mut i: usize = 0;
    while i < list.len()
        invariant
            0 <= i <= list@.len(),
            out@ + without(list@, k, i as int) == without(list@, k, 0),
        decreases list@.len() - i,
    {
        let ghost before = out@;
        if list[i] != k {
            out.push(list[i]);
            assert(out@ + without(list@, k, i + 1) =~= before + (seq![list@[i as int]] + without(
                list@,
                k,
                i + 1,
            )));
        } else {
            assert(out@ + without(list@, k, i + 1) =~= before + (Seq::<usize>::empty() + without(
                list@,
                k,
                i + 1,
            )));
        }
        i += 1;
    }
    assert(out@ + Seq::<usize>::empty() =~= out@);
    out
}

#[verifier::loop_isolation(false)]
fn copy_list(list: &Vec<usize>) -> (out: Vec<usize>)
    ensures
        out@ == list@,
{
    let mut out: Vec<usize> = Vec::new();
    let mut i: usize = 0;
    while i < list.len()
        invariant
            0 <= i <= list@.len(),
            out@ == list@.take(i as int),
        decreases list@.len() - i,
    {
        out.push(list[i]);
        i += 1;
        assert(out@ =~= list@.take(i as int));
    }
    assert(list@.take(i as int) =~= list@);
    out
}

/// The triples of computers linked to one another, as the search through
/// the lists finds them. The lists are used up.
#[verifier::loop_isolation(false)]
pub fn triple_network(lists: &mut Vec<Vec<usize>>) -> (out: Vec<(usize, usize, usize)>)
    ensures
        out@ == triples(rows(old(lists)@), 0, seq![]),
{
    let ghost goal = triples(rows(lists@), 0, seq![]);
    let n = lists.len();
    let mut found: Vec<(usize, usize, usize)> = Vec::new();
    let mut key: usize = 0;
    while key < n
        invariant
            0 <= key <= n,
            lists@.len() == n,
            triples(rows(lists@), key as int, found@) == goal,
        decreases n - key,
    {
        let vals = copy_list(&lists[key]);
        assert(rows(lists@)[key as int] == vals@);
        let ghost key_goal = around(rows(lists@), key, vals@, 0, found@);
        let mut m: usize = 0;
        while m < vals.len()
            invariant
                0 <= m <= vals@.len(),
                lists@.len() == n,
                around(rows(lists@), key, vals@, m as int, found@) == key_goal,
            decreases vals@.len() - m,
        {
            let val = vals[m];
            if val < lists.len() {
                let ghost before = rows(lists@);
                let struck = strike(&lists[val], key);
                let nets = copy_list(&struck);
                lists.set(val, struck);
                assert(rows(lists@) =~= before.update(val as int, without(before[val as int], key, 0)));
                assert(rows(lists@)[val as int] == nets@);
                let ghost f0 = found@;
                let mut t: usize = 0;
                while t < nets.len()
                    invariant
                        0 <= t <= nets@.len(),
                        lists@.len() == n,
                        found@ + closing(rows(lists@), key, val, nets@, t as int) == f0 + closing(
                            rows(lists@),
                            key,
                            val,
                            nets@,
                            0,
                        ),
                    decreases nets@.len() - t,
                {
                    let net = nets[t];
                    let ghost f1 = found@;
                    let ghost rest = closing(rows(lists@), key, val, nets@, t + 1);
                    if net < lists.len() && has_index(&lists[net], key) {
                        assert(rows(lists@)[net as int] == lists@[net as int]@);
                        found.push((key, val, net));
                        assert(found@ + rest =~= f1 + (seq![(key, val, net)] + rest));
                    } else {
                        if net < lists.len() {
                            assert(rows(lists@)[net as int] == lists@[net as int]@);
                        }
                        assert(found@ + rest =~= f1 + (Seq::<(usize, usize, usize)>::empty() + rest));
                    }
                    t += 1;
                }
                assert(found@ + Seq::<(usize, usize, usize)>::empty() =~= found@);
            }
            m += 1;
        }
        key += 1;
    }
    found
}

#[verifier::loop_isolation(false)]
fn has_triple(v: &Vec<(usize, usize, usize)>, x: (usize, usize, usize)) -> (r: bool)
    ensures
        r == v@.contains(x),
{
    let mut i: usize = 0;
    while i < v.len()
        invariant
            0 <= i <= v@.len(),
            forall|k: int| 0 <= k < i ==> v@[k] != x,
        decreases v@.len() - i,
    {
        if v[i].0 == x.0 && v[i].1 == x.1 && v[i].2 == x.2 {
            assert(v@[i as int] == x);
            return true;
        }
        i += 1;
    }
    false
}

/// The number of different triples among the entries of `v`.
#[verifier::loop_isolation(false)]
fn count_triples(v: &Vec<(usize, usize, usize)>) -> (n: usize)
    ensures
        n == v@.to_set().len(),
{
    let mut seen: Vec<(usize, usize, usize)> = Vec::new();
    let mut i: usize = 0;
    assert(v@.take(0).to_set() =~= seen@.to_set());
    while i < v.len()
        invariant
            0 <= i <= v@.len(),
            seen@.no_duplicates(),
            seen@.to_set() == v@.take(i as int).to_set(),
        decreases v@.len() - i,
    {
        let x = v[i];
        proof {
            let t = v@.take(i + 1);
            assert(t =~= v@.take(i as int).push(x));
            assert forall|y: (usize, usize, usize)| t.contains(y) <==> (v@.take(i as int).contains(
                y,
            ) || y == x) by {
                vstd::seq_lib::lemma_seq_contains_after_push(v@.take(i as int), x, y);
            }
            assert(t.to_set() =~= v@.take(i as int).to_set().insert(x));
        }
        if !has_triple(&seen, x) {
            proof {
                assert forall|y: (usize, usize, usize)| seen@.push(x).contains(y) <==> (
                seen@.contains(y) || y == x) by {
                    vstd::seq_lib::lemma_seq_contains_after_push(seen@, x, y);
                }
                assert(seen@.push(x).to_set() =~= seen@.to_set().insert(x));
            }
            seen.push(x);
        } else {
            assert(seen@.to_set().insert(x) =~= seen@.to_set());
        }
        i += 1;
    }
    proof {
        assert(v@.take(i as int) =~= v@);
        seen@.unique_seq_to_set();
    }
    seen.len()
}

fn begins_with_t(names: &Vec<Vec<u8>>, i: usize) -> (r: bool)
    ensures
        r == has_t(views(names@), i),
{
    if i < names.len() {
        assert(views(names@)[i as int] == names@[i as int]@);
        names[i].len() > 0 && names[i][0] == 116
    } else {
        false
    }
}

/// The number of sets of three computers linked to one another of which
/// one has a name that begins with `t`.
#[verifier::loop_isolation(false)]
pub fn part_one(input: &str) -> (out: Option<u32>)
    ensures
        out == answer_one(input.spec_bytes()),
{
    let mut net = match parse_network(input.as_bytes()) {
        Some(n) => n,
        None => {
            return None;
        },
    };
    let ghost names = views(net.names@);
    let all = triple_network(&mut net.lists);
    let mut chosen: Vec<(usize, usize, usize)> = Vec::new();
    let mut i: usize = 0;
    while i < all.len()
        invariant
            0 <= i <= all@.len(),
            names == views(net.names@),
            chosen@ + with_t(names, all@, i as int) == with_t(names, all@, 0),
        decreases all@.len() - i,
    {
        let (a, b, c) = all[i];
        let ghost before = chosen@;
        let ghost rest = with_t(names, all@, i + 1);
        if begins_with_t(&net.names, a) || begins_with_t(&net.names, b) || begins_with_t(
            &net.names,
            c,
        ) {
            chosen.push((a, b, c));
            assert(chosen@ + rest =~= before + (seq![all@[i as int]] + rest));
        } else {
            assert(chosen@ + rest =~= before + (Seq::<(usize, usize, usize)>::empty() + rest));
        }
        i += 1;
    }
    assert(chosen@ + Seq::<(usize, usize, usize)>::empty() =~= chosen@);
    let n = count_triples(&chosen);
    if n <= u32::MAX as usize {
        Some(n as u32)
    } else {
        None
    }
}

#[verifier::loop_isolation(false)]
fn sieve(lists: &Vec<Vec<usize>>, s: &Vec<usize>, v: usize, linked: bool) -> (out: Vec<usize>)
    ensures
        out@ == sieved(rows(lists@), s@, v, linked, 0),
{
    let ghost ls = rows(lists@);
    let mut out: Vec<usize> = Vec::new();
    let mut i: usize = 0;
    while i < s.len()
        invariant
            0 <= i <= s@.len(),
            out@ + sieved(ls, s@, v, linked, i as int) == sieved(ls, s@, v, linked, 0),
        decreases s@.len() - i,
    {
        let ghost before = out@;
        let ghost rest = sieved(ls, s@, v, linked, i + 1);
        let adj = if v < lists.len() {
            assert(ls[v as int] == lists@[v as int]@);
            has_index(&lists[v], s[i])
        } else {
            false
        };
        if adj == linked {
            out.push(s[i]);
            assert(out@ + rest =~= before + (seq![s@[i as int]] + rest));
        } else {
            assert(out@ + rest =~= before + (Seq::<usize>::empty() + rest));
        }
        i += 1;
    }
    assert(out@ + Seq::<usize>::empty() =~= out@);
    out
}

/// What is left of `p` once the computers `cands`, from the `i`-th on, have
/// had their turns in the search.
pub open spec fn drained(p: Seq<usize>, cands: Seq<usize>, i: int) -> Seq<usize>
    decreases cands.len() - i,
{
    if 0 <= i < cands.len() {
        drained(without(p, cands[i], 0), cands, i + 1)
    } else {
        p
    }
}

/// What a search that comes to an end leaves of `p` and of `x`: the
/// computers that have had their turns have gone from the one to the other.
pub open spec fn left_over(lists: Seq<Seq<usize>>, p: Seq<usize>, x: Seq<usize>) -> (
    Seq<usize>,
    Seq<usize>,
) {
    if p.len() == 0 && x.len() == 0 {
        (p, x)
    } else {
        let pivot = if p.len() > 0 {
            p[0]
        } else {
            x[0]
        };
        let cands = sieved(lists, p, pivot, false, 0);
        (drained(p, cands, 0), x + cands)
    }
}

/// The search of Bron and Kerbosch. Leaves the largest set found in
/// `max_clique`, or says, with `false`, that a set would have more members
/// than can be counted or that a computer is not of the network; the
/// lists are then left in no particular state.
#[verifier::loop_isolation(false)]
pub fn bron_kerbosch(
    lists: &Vec<Vec<usize>>,
    max_clique: &mut Vec<usize>,
    p: &mut Vec<usize>,
    r: &mut Vec<usize>,
    x: &mut Vec<usize>,
) -> (ok: bool)
    ensures
        match searched(rows(lists@), old(max_clique)@, old(p)@, old(r)@, old(x)@) {
            Some(b) => ok && final(max_clique)@ == b && final(r)@ == old(r)@ && final(p)@
                == left_over(rows(lists@), old(p)@, old(x)@).0 && final(x)@ == left_over(
                rows(lists@),
                old(p)@,
                old(x)@,
            ).1,
            None => !ok,
        },
    decreases usize::MAX - old(r)@.len(), 1int, 0int,
{
    let ghost ls = rows(lists@);
    if p.len() == 0 && x.len() == 0 {
        if max_clique.len() < r.len() {
            *max_clique = copy_list(r);
        }
        return true;
    }
    let pivot = if p.len() > 0 {
        p[0]
    } else {
        x[0]
    };
    if pivot >= lists.len() {
        return false;
    }
    let candidates = sieve(lists, p, pivot, false);
    let ghost goal = branched(ls, max_clique@, p@, r@, x@, candidates@, 0);
    let mut i: usize = 0;
    assert(x@ =~= old(x)@ + candidates@.take(0));
    while i < candidates.len()
        invariant
            0 <= i <= candidates@.len(),
            r@ == old(r)@,
            branched(ls, max_clique@, p@, r@, x@, candidates@, i as int) == goal,
            drained(p@, candidates@, i as int) == drained(old(p)@, candidates@, 0),
            x@ == old(x)@ + candidates@.take(i as int),
        decreases usize::MAX - old(r)@.len(), 0int, candidates@.len() - i,
    {
        let v = candidates[i];
        if r.len() == usize::MAX || v >= lists.len() {
            return false;
        }
        let mut updated_p = sieve(lists, p, v, true);
        let mut updated_x = sieve(lists, x, v, true);
        r.push(v);
        if !bron_kerbosch(lists, max_clique, &mut updated_p, r, &mut updated_x) {
            return false;
        }
        r.pop();
        assert(r@ =~= old(r)@);
        let struck = strike(p, v);
        *p = struck;
        x.push(v);
        i += 1;
        assert(x@ =~= old(x)@ + candidates@.take(i as int));
    }
    assert(candidates@.take(i as int) =~= candidates@);
    true
}

/// The names of the computers of the largest set in which every two are
/// linked, in the order of the dictionary, with commas between.
#[verifier::loop_isolation(false)]
pub fn part_two(input: &str) -> (out: Option<String>)
    ensures
        match answer_two(input.spec_bytes()) {
            Some(b) => (out is Some <==> valid_utf8(b)) && (out matches Some(s) ==> encode_utf8(s@)
                == b),
            None => out is None,
        },
{
    let net = match parse_network(input.as_bytes()) {
        Some(n) => n,
        None => {
            return None;
        },
    };
    let ghost names = views(net.names@);
    let mut candidates: Vec<usize> = Vec::new();
    let mut i: usize = 0;
    while i < net.names.len()
        invariant
            0 <= i <= net.names@.len(),
            candidates@.len() == i,
            forall|k: int| 0 <= k < i ==> candidates@[k] == k as usize,
        decreases net.names@.len() - i,
    {
        candidates.push(i);
        i += 1;
    }
    assert(candidates@ =~= Seq::new(names.len(), |i: int| i as usize));
    let mut clique: Vec<usize> = Vec::new();
    let mut set: Vec<usize> = Vec::new();
    let mut shut: Vec<usize> = Vec::new();
    if !bron_kerbosch(&net.lists, &mut set, &mut candidates, &mut clique, &mut shut) {
        return None;
    }
    let mut chosen: Vec<Vec<u8>> = Vec::new();
    assert(views(chosen@) =~= Seq::<Seq<u8>>::empty());
    let mut k: usize = 0;
    while k < set.len()
        invariant
            0 <= k <= set@.len(),
            views(chosen@) + names_of(names, set@, k as int) == names_of(names, set@, 0),
        decreases set@.len() - k,
    {
        let ghost before = views(chosen@);
        let ghost rest = names_of(names, set@, k + 1);
        if set[k] < net.names.len() {
            let name = &net.names[set[k]];
            assert(names[set@[k as int] as int] == name@);
            let copy = copy_range(name.as_slice(), 0, name.len());
            assert(copy@ =~= name@);
            proof {
                lemma_views_push(chosen@, copy);
            }
            chosen.push(copy);
            assert(views(chosen@) + rest =~= before + (seq![name@] + rest));
        } else {
            assert(views(chosen@) + rest =~= before + (Seq::<Seq<u8>>::empty() + rest));
        }
        k += 1;
    }
    assert(views(chosen@) + Seq::<Seq<u8>>::empty() =~= views(chosen@));
    let sorted = sort_names(&chosen);
    let answer = join_with(&sorted, 44);
    to_text(answer)
}

/// Each member of `s` has every later member on its list.
pub open spec fn linked_set(lists: Seq<Seq<usize>>, s: Seq<usize>) -> bool {
    forall|i: int, j: int| 0 <= i < j < s.len() ==> adjacent(lists, s[i], s[j])
}

/// Each member of `r` has every entry of `p` on its list.
pub open spec fn reaches(lists: Seq<Seq<usize>>, r: Seq<usize>, p: Seq<usize>) -> bool {
    forall|i: int, j: int| 0 <= i < r.len() && 0 <= j < p.len() ==> adjacent(lists, r[i], p[j])
}

proof fn lemma_without_keeps(list: Seq<usize>, k: usize, i: int, j: int)
    requires
        0 <= j < without(list, k, i).len(),
    ensures
        list.contains(without(list, k, i)[j]),
    decreases list.len() - i,
{
    if 0 <= i < list.len() {
        if list[i] != k {
            if j == 0 {
                assert(without(list, k, i)[0] == list[i]);
            } else {
                assert(without(list, k, i)[j] == without(list, k, i + 1)[j - 1]);
                lemma_without_keeps(list, k, i + 1, j - 1);
            }
        } else {
            assert(without(list, k, i) =~= without(list, k, i + 1));
            lemma_without_keeps(list, k, i + 1, j);
        }
    }
}

proof fn lemma_sieved_keeps(
    lists: Seq<Seq<usize>>,
    s: Seq<usize>,
    v: usize,
    linked: bool,
    i: int,
    j: int,
)
    requires
        0 <= j < sieved(lists, s, v, linked, i).len(),
    ensures
        s.contains(sieved(lists, s, v, linked, i)[j]),
        adjacent(lists, v, sieved(lists, s, v, linked, i)[j]) == linked,
    decreases s.len() - i,
{
    if 0 <= i < s.len() {
        if adjacent(lists, v, s[i]) == linked {
            if j == 0 {
                assert(sieved(lists, s, v, linked, i)[0] == s[i]);
            } else {
                assert(sieved(lists, s, v, linked, i)[j] == sieved(lists, s, v, linked, i + 1)[j
                    - 1]);
                lemma_sieved_keeps(lists, s, v, linked, i + 1, j - 1);
            }
        } else {
            assert(sieved(lists, s, v, linked, i) =~= sieved(lists, s, v, linked, i + 1));
            lemma_sieved_keeps(lists, s, v, linked, i + 1, j);
        }
    }
}

/// The search gives a set in which each member has every later member on
/// its list, where it starts from such sets and every member of the set in
/// the making has every computer that may yet join on its list.
pub proof fn lemma_search_gives_linked_set(
    lists: Seq<Seq<usize>>,
    best: Seq<usize>,
    p: Seq<usize>,
    r: Seq<usize>,
    x: Seq<usize>,
)
    requires
        linked_set(lists, best),
        linked_set(lists, r),
        reaches(lists, r, p),
    ensures
        searched(lists, best, p, r, x) matches Some(s) ==> linked_set(lists, s),
    decreases usize::MAX - r.len(), 1int, 0int,
{
    if !(p.len() == 0 && x.len() == 0) {
        let pivot = if p.len() > 0 {
            p[0]
        } else {
            x[0]
        };
        if pivot < lists.len() {
            let cands = sieved(lists, p, pivot, false, 0);
            assert(reaches(lists, r, cands)) by {
                assert forall|i: int, j: int|
                    0 <= i < r.len() && 0 <= j < cands.len() implies adjacent(
                    lists,
                    r[i],
                    cands[j],
                ) by {
                    lemma_sieved_keeps(lists, p, pivot, false, 0, j);
                    let k = choose|k: int| 0 <= k < p.len() && p[k] == cands[j];
                    assert(adjacent(lists, r[i], p[k]));
                }
            }
            lemma_branches_give_linked_set(lists, best, p, r, x, cands, 0);
        }
    }
}

proof fn lemma_branches_give_linked_set(
    lists: Seq<Seq<usize>>,
    best: Seq<usize>,
    p: Seq<usize>,
    r: Seq<usize>,
    x: Seq<usize>,
    cands: Seq<usize>,
    i: int,
)
    requires
        linked_set(lists, best),
        linked_set(lists, r),
        reaches(lists, r, p),
        reaches(lists, r, cands),
    ensures
        branched(lists, best, p, r, x, cands, i) matches Some(s) ==> linked_set(lists, s),
    decreases usize::MAX - r.len(), 0int, cands.len() - i,
{
    if 0 <= i < cands.len() {
        let v = cands[i];
        if !(r.len() >= usize::MAX || v >= lists.len()) {
            let r2 = r.push(v);
            let p2 = sieved(lists, p, v, true, 0);
            let x2 = sieved(lists, x, v, true, 0);
            assert(linked_set(lists, r2)) by {
                assert forall|a: int, b: int| 0 <= a < b < r2.len() implies adjacent(
                    lists,
                    r2[a],
                    r2[b],
                ) by {
                    if b < r.len() {
                        assert(adjacent(lists, r[a], r[b]));
                    } else {
                        assert(adjacent(lists, r[a], cands[i]));
                    }
                }
            }
            assert(reaches(lists, r2, p2)) by {
                assert forall|a: int, b: int|
                    0 <= a < r2.len() && 0 <= b < p2.len() implies adjacent(lists, r2[a], p2[b]) by {
                    lemma_sieved_keeps(lists, p, v, true, 0, b);
                    if a < r.len() {
                        let k = choose|k: int| 0 <= k < p.len() && p[k] == p2[b];
                        assert(adjacent(lists, r[a], p[k]));
                    }
                }
            }
            lemma_search_gives_linked_set(lists, best, p2, r2, x2);
            match searched(lists, best, p2, r2, x2) {
                None => {},
                Some(b) => {
                    let p3 = without(p, v, 0);
                    assert(reaches(lists, r, p3)) by {
                        assert forall|a: int, c: int|
                            0 <= a < r.len() && 0 <= c < p3.len() implies adjacent(
                            lists,
                            r[a],
                            p3[c],
                        ) by {
                            lemma_without_keeps(p, v, 0, c);
                            let k = choose|k: int| 0 <= k < p.len() && p[k] == p3[c];
                            assert(adjacent(lists, r[a], p[k]));
                        }
                    }
                    lemma_branches_give_linked_set(lists, b, p3, r, x.push(v), cands, i + 1);
                },
            }
        }
    }
}

/// Every entry of every list is an entry of the list in the same place in `all`.
pub open spec fn sublists(lists: Seq<Seq<usize>>, all: Seq<Seq<usize>>) -> bool {
    &&& lists.len() == all.len()
    &&& forall|i: int, j: int|
        0 <= i < lists.len() && 0 <= j < lists[i].len() ==> all[i].contains(#[trigger] lists[i][j])
}

/// The first computer has the second on its list, the second the third,
/// and the third the first.
pub open spec fn triangle(all: Seq<Seq<usize>>, t: (usize, usize, usize)) -> bool {
    adjacent(all, t.0, t.1) && adjacent(all, t.1, t.2) && adjacent(all, t.2, t.0)
}

/// Every triple of the list is a triangle of the network.
pub open spec fn all_triangles(all: Seq<Seq<usize>>, found: Seq<(usize, usize, usize)>) -> bool {
    forall|i: int| 0 <= i < found.len() ==> triangle(all, #[trigger] found[i])
}

proof fn lemma_closing_triangles(
    all: Seq<Seq<usize>>,
    lists: Seq<Seq<usize>>,
    key: usize,
    val: usize,
    nets: Seq<usize>,
    t: int,
)
    requires
        sublists(lists, all),
        adjacent(all, key, val),
        forall|j: int| 0 <= j < nets.len() ==> adjacent(all, val, #[trigger] nets[j]),
    ensures
        all_triangles(all, closing(lists, key, val, nets, t)),
    decreases nets.len() - t,
{
    if 0 <= t < nets.len() {
        lemma_closing_triangles(all, lists, key, val, nets, t + 1);
        let net = nets[t];
        if net < lists.len() && lists[net as int].contains(key) {
            let j = choose|j: int| 0 <= j < lists[net as int].len() && lists[net as int][j] == key;
            assert(all[net as int].contains(lists[net as int][j]));
            assert(adjacent(all, val, nets[t]));
            assert(triangle(all, (key, val, net)));
        }
    }
}

proof fn lemma_around_triangles(
    all: Seq<Seq<usize>>,
    lists: Seq<Seq<usize>>,
    key: usize,
    vals: Seq<usize>,
    m: int,
    found: Seq<(usize, usize, usize)>,
)
    requires
        sublists(lists, all),
        all_triangles(all, found),
        forall|j: int| 0 <= j < vals.len() ==> adjacent(all, key, #[trigger] vals[j]),
    ensures
        sublists(around(lists, key, vals, m, found).0, all),
        all_triangles(all, around(lists, key, vals, m, found).1),
    decreases vals.len() - m,
{
    if 0 <= m < vals.len() {
        let val = vals[m];
        if val < lists.len() {
            let row = without(lists[val as int], key, 0);
            let struck = lists.update(val as int, row);
            assert(sublists(struck, all)) by {
                assert forall|i: int, j: int|
                    0 <= i < struck.len() && 0 <= j < struck[i].len() implies all[i].contains(
                    #[trigger] struck[i][j],
                ) by {
                    if i == val {
                        lemma_without_keeps(lists[val as int], key, 0, j);
                        let k = choose|k: int|
                            0 <= k < lists[val as int].len() && lists[val as int][k] == row[j];
                        assert(all[i].contains(lists[i][k]));
                    } else {
                        assert(struck[i][j] == lists[i][j]);
                    }
                }
            }
            assert(adjacent(all, key, vals[m]));
            assert forall|j: int| 0 <= j < row.len() implies adjacent(all, val, #[trigger] row[j]) by {
                assert(all[val as int].contains(struck[val as int][j]));
            }
            lemma_closing_triangles(all, struck, key, val, row, 0);
            let more = found + closing(struck, key, val, row, 0);
            assert(all_triangles(all, more)) by {
                assert forall|i: int| 0 <= i < more.len() implies triangle(all, #[trigger] more[i]) by {
                    if i < found.len() {
                        assert(more[i] == found[i]);
                    } else {
                        assert(more[i] == closing(struck, key, val, row, 0)[i - found.len()]);
                    }
                }
            }
            lemma_around_triangles(all, struck, key, vals, m + 1, more);
        } else {
            lemma_around_triangles(all, lists, key, vals, m + 1, found);
        }
    }
}

/// Every triple found is a triangle of the network.
pub proof fn lemma_triples_are_triangles(
    all: Seq<Seq<usize>>,
    lists: Seq<Seq<usize>>,
    key: int,
    found: Seq<(usize, usize, usize)>,
)
    requires
        all.len() <= usize::MAX,
        sublists(lists, all),
        all_triangles(all, found),
    ensures
        all_triangles(all, triples(lists, key, found)),
    decreases lists.len() - key,
{
    if 0 <= key < lists.len() {
        assert forall|j: int| 0 <= j < lists[key].len() implies adjacent(
            all,
            key as usize,
            #[trigger] lists[key][j],
        ) by {
            assert(all[key].contains(lists[key][j]));
        }
        lemma_around_triangles(all, lists, key as usize, lists[key], 0, found);
        let r = around(lists, key as usize, lists[key], 0, found);
        if r.0.len() == lists.len() {
            lemma_triples_are_triangles(all, r.0, key + 1, r.1);
        }
    }
}

/// No computer has itself on its list, and a computer that is on the list
/// of another has that other on its own.
pub open spec fn plain_graph(lists: Seq<Seq<usize>>) -> bool {
    &&& forall|v: usize| !#[trigger] adjacent(lists, v, v)
    &&& forall|a: usize, b: usize| #[trigger] adjacent(lists, a, b) ==> adjacent(lists, b, a)
}

/// Each two computers of the set are linked.
pub open spec fn clique(lists: Seq<Seq<usize>>, c: Set<usize>) -> bool {
    forall|a: usize, b: usize|
        c.contains(a) && c.contains(b) && a != b ==> #[trigger] adjacent(lists, a, b)
}

/// A finite set of computers linked each to each, than which no such set
/// has more members.
pub open spec fn largest(lists: Seq<Seq<usize>>, c: Set<usize>) -> bool {
    &&& c.finite()
    &&& clique(lists, c)
    &&& forall|d: Set<usize>| d.finite() && #[trigger] clique(lists, d) ==> d.len() <= c.len()
}

/// The set `c` lies between the set in the making and what may yet join
/// it: `r` is part of `c`, the rest of `c` is in `p`, and every computer of
/// `p` and of `x` has every member of `r` on its list.
pub open spec fn framed(
    lists: Seq<Seq<usize>>,
    c: Set<usize>,
    p: Seq<usize>,
    r: Seq<usize>,
    x: Seq<usize>,
) -> bool {
    &&& forall|i: int| 0 <= i < r.len() ==> c.contains(#[trigger] r[i])
    &&& forall|w: usize| #[trigger] c.contains(w) ==> r.contains(w) || p.contains(w)
    &&& forall|u: usize, i: int|
        #![trigger p.contains(u), r[i]]
        p.contains(u) && 0 <= i < r.len() ==> adjacent(lists, u, r[i])
    &&& forall|u: usize, i: int|
        #![trigger x.contains(u), r[i]]
        x.contains(u) && 0 <= i < r.len() ==> adjacent(lists, u, r[i])
}

proof fn lemma_cannot_extend(lists: Seq<Seq<usize>>, c: Set<usize>, u: usize)
    requires
        plain_graph(lists),
        largest(lists, c),
        !c.contains(u),
    ensures
        exists|w: usize| c.contains(w) && !#[trigger] adjacent(lists, u, w),
{
    if forall|w: usize| c.contains(w) ==> #[trigger] adjacent(lists, u, w) {
        let d = c.insert(u);
        assert(clique(lists, d)) by {
            assert forall|a: usize, b: usize|
                d.contains(a) && d.contains(b) && a != b implies #[trigger] adjacent(lists, a, b) by {
                if a == u {
                    assert(c.contains(b));
                } else if b == u {
                    assert(c.contains(a));
                    assert(adjacent(lists, u, a));
                } else {
                    assert(c.contains(a) && c.contains(b));
                }
            }
        }
        vstd::set::axiom_set_insert_finite(c, u);
        vstd::set::axiom_set_insert_len(c, u);
        assert(d.len() <= c.len());
        assert(false);
    }
}

proof fn lemma_sieved_has(
    lists: Seq<Seq<usize>>,
    s: Seq<usize>,
    v: usize,
    linked: bool,
    i: int,
    k: int,
)
    requires
        0 <= i <= k < s.len(),
        adjacent(lists, v, s[k]) == linked,
    ensures
        sieved(lists, s, v, linked, i).contains(s[k]),
    decreases s.len() - i,
{
    let all = sieved(lists, s, v, linked, i);
    let rest = sieved(lists, s, v, linked, i + 1);
    if i == k {
        assert(all[0] == s[k]);
    } else {
        lemma_sieved_has(lists, s, v, linked, i + 1, k);
        let j = choose|j: int| 0 <= j < rest.len() && rest[j] == s[k];
        if adjacent(lists, v, s[i]) == linked {
            assert(all[j + 1] == rest[j]);
        } else {
            assert(all =~= rest);
        }
    }
}

proof fn lemma_without_has(list: Seq<usize>, v: usize, i: int, k: int)
    requires
        0 <= i <= k < list.len(),
        list[k] != v,
    ensures
        without(list, v, i).contains(list[k]),
    decreases list.len() - i,
{
    let all = without(list, v, i);
    let rest = without(list, v, i + 1);
    if i == k {
        assert(all[0] == list[k]);
    } else {
        lemma_without_has(list, v, i + 1, k);
        let j = choose|j: int| 0 <= j < rest.len() && rest[j] == list[k];
        if list[i] != v {
            assert(all[j + 1] == rest[j]);
        } else {
            assert(all =~= rest);
        }
    }
}

proof fn lemma_search_grows(
    lists: Seq<Seq<usize>>,
    best: Seq<usize>,
    p: Seq<usize>,
    r: Seq<usize>,
    x: Seq<usize>,
)
    ensures
        searched(lists, best, p, r, x) matches Some(s) ==> s.len() >= best.len(),
    decreases usize::MAX - r.len(), 1int, 0int,
{
    if !(p.len() == 0 && x.len() == 0) {
        let pivot = if p.len() > 0 {
            p[0]
        } else {
            x[0]
        };
        if pivot < lists.len() {
            lemma_branches_grow(lists, best, p, r, x, sieved(lists, p, pivot, false, 0), 0);
        }
    }
}

proof fn lemma_branches_grow(
    lists: Seq<Seq<usize>>,
    best: Seq<usize>,
    p: Seq<usize>,
    r: Seq<usize>,
    x: Seq<usize>,
    cands: Seq<usize>,
    i: int,
)
    ensures
        branched(lists, best, p, r, x, cands, i) matches Some(s) ==> s.len() >= best.len(),
    decreases usize::MAX - r.len(), 0int, cands.len() - i,
{
    if 0 <= i < cands.len() {
        let v = cands[i];
        if !(r.len() >= usize::MAX || v >= lists.len()) {
            let p2 = sieved(lists, p, v, true, 0);
            let x2 = sieved(lists, x, v, true, 0);
            lemma_search_grows(lists, best, p2, r.push(v), x2);
            match searched(lists, best, p2, r.push(v), x2) {
                None => {},
                Some(b) => {
                    lemma_branches_grow(lists, b, without(p, v, 0), r, x.push(v), cands, i + 1);
                },
            }
        }
    }
}

/// Where no computer is linked to itself and every link goes both ways,
/// the search misses no largest set: the set it gives has as many members as
/// any set of computers linked each to each that lies between the set in
/// the making and what may yet join it and is as large as such a set can be.
pub proof fn lemma_search_finds_largest(
    lists: Seq<Seq<usize>>,
    best: Seq<usize>,
    p: Seq<usize>,
    r: Seq<usize>,
    x: Seq<usize>,
    c: Set<usize>,
)
    requires
        plain_graph(lists),
        largest(lists, c),
        framed(lists, c, p, r, x),
    ensures
        searched(lists, best, p, r, x) matches Some(s) ==> s.len() >= c.len(),
    decreases usize::MAX - r.len(), 1int, 0int,
{
    if p.len() == 0 && x.len() == 0 {
        assert(c.subset_of(r.to_set())) by {
            assert forall|w: usize| c.contains(w) implies r.to_set().contains(w) by {
                assert(r.contains(w) || p.contains(w));
            }
        }
        vstd::seq_lib::seq_to_set_is_finite(r);
        vstd::set_lib::lemma_len_subset(c, r.to_set());
        r.lemma_cardinality_of_set();
    } else {
        let u = if p.len() > 0 {
            p[0]
        } else {
            x[0]
        };
        if u < lists.len() {
            let cands = sieved(lists, p, u, false, 0);
            assert(p.contains(u) || x.contains(u)) by {
                if p.len() > 0 {
                    assert(p[0] == u);
                } else {
                    assert(x[0] == u);
                }
            }
            // a member of the set that the pivot is not linked to
            let w = if c.contains(u) {
                u
            } else {
                lemma_cannot_extend(lists, c, u);
                choose|w: usize| c.contains(w) && !#[trigger] adjacent(lists, u, w)
            };
            assert(c.contains(w) && !adjacent(lists, u, w));
            assert(!r.contains(w)) by {
                if r.contains(w) {
                    let i = choose|i: int| 0 <= i < r.len() && r[i] == w;
                    assert(adjacent(lists, u, r[i]));
                }
            }
            assert(p.contains(w));
            let k = choose|k: int| 0 <= k < p.len() && p[k] == w;
            lemma_sieved_has(lists, p, u, false, 0, k);
            let j = choose|j: int| 0 <= j < cands.len() && cands[j] == w;
            assert forall|n: int, i: int| 0 <= n < cands.len() && 0 <= i < r.len() implies adjacent(
                lists,
                #[trigger] cands[n],
                #[trigger] r[i],
            ) by {
                lemma_sieved_keeps(lists, p, u, false, 0, n);
                assert(p.contains(cands[n]));
            }
            assert(c.contains(cands[j]));
            lemma_branches_find_largest(lists, best, p, r, x, cands, 0, c, j);
        }
    }
}

proof fn lemma_branches_find_largest(
    lists: Seq<Seq<usize>>,
    best: Seq<usize>,
    p: Seq<usize>,
    r: Seq<usize>,
    x: Seq<usize>,
    cands: Seq<usize>,
    i: int,
    c: Set<usize>,
    j: int,
)
    requires
        plain_graph(lists),
        largest(lists, c),
        framed(lists, c, p, r, x),
        0 <= i <= j < cands.len(),
        c.contains(cands[j]),
        forall|n: int, m: int|
            0 <= n < cands.len() && 0 <= m < r.len() ==> adjacent(
                lists,
                #[trigger] cands[n],
                #[trigger] r[m],
            ),
    ensures
        branched(lists, best, p, r, x, cands, i) matches Some(s) ==> s.len() >= c.len(),
    decreases usize::MAX - r.len(), 0int, cands.len() - i,
{
    let v = cands[i];
    if !(r.len() >= usize::MAX || v >= lists.len()) {
        let r2 = r.push(v);
        let p2 = sieved(lists, p, v, true, 0);
        let x2 = sieved(lists, x, v, true, 0);
        if c.contains(v) {
            assert(framed(lists, c, p2, r2, x2)) by {
                assert forall|n: int| 0 <= n < r2.len() implies c.contains(#[trigger] r2[n]) by {
                    if n < r.len() {
                        assert(r2[n] == r[n]);
                    }
                }
                assert forall|w: usize| #[trigger] c.contains(w) implies r2.contains(w)
                    || p2.contains(w) by {
                    if w == v {
                        assert(r2[r.len() as int] == w);
                    } else if r.contains(w) {
                        let n = choose|n: int| 0 <= n < r.len() && r[n] == w;
                        assert(r2[n] == w);
                    } else {
                        assert(p.contains(w));
                        let k = choose|k: int| 0 <= k < p.len() && p[k] == w;
                        assert(adjacent(lists, v, w));
                        lemma_sieved_has(lists, p, v, true, 0, k);
                    }
                }
                assert forall|u: usize, n: int|
                    #![trigger p2.contains(u), r2[n]]
                    p2.contains(u) && 0 <= n < r2.len() implies adjacent(lists, u, r2[n]) by {
                    let k = choose|k: int| 0 <= k < p2.len() && p2[k] == u;
                    lemma_sieved_keeps(lists, p, v, true, 0, k);
                    if n < r.len() {
                        assert(r2[n] == r[n]);
                        assert(p.contains(u));
                        assert(adjacent(lists, u, r[n]));
                    } else {
                        assert(adjacent(lists, v, u));
                    }
                }
                assert forall|u: usize, n: int|
                    #![trigger x2.contains(u), r2[n]]
                    x2.contains(u) && 0 <= n < r2.len() implies adjacent(lists, u, r2[n]) by {
                    let k = choose|k: int| 0 <= k < x2.len() && x2[k] == u;
                    lemma_sieved_keeps(lists, x, v, true, 0, k);
                    if n < r.len() {
                        assert(r2[n] == r[n]);
                        assert(x.contains(u));
                        assert(adjacent(lists, u, r[n]));
                    } else {
                        assert(adjacent(lists, v, u));
                    }
                }
            }
            lemma_search_finds_largest(lists, best, p2, r2, x2, c);
            match searched(lists, best, p2, r2, x2) {
                None => {},
                Some(b) => {
                    lemma_branches_grow(lists, b, without(p, v, 0), r, x.push(v), cands, i + 1);
                },
            }
        } else {
            match searched(lists, best, p2, r2, x2) {
                None => {},
                Some(b) => {
                    let p3 = without(p, v, 0);
                    let x3 = x.push(v);
                    assert(framed(lists, c, p3, r, x3)) by {
                        assert forall|w: usize| #[trigger] c.contains(w) implies r.contains(w)
                            || p3.contains(w) by {
                            if !r.contains(w) {
                                assert(p.contains(w));
                                let k = choose|k: int| 0 <= k < p.len() && p[k] == w;
                                lemma_without_has(p, v, 0, k);
                            }
                        }
                        assert forall|u: usize, n: int|
                            #![trigger p3.contains(u), r[n]]
                            p3.contains(u) && 0 <= n < r.len() implies adjacent(lists, u, r[n]) by {
                            let k = choose|k: int| 0 <= k < p3.len() && p3[k] == u;
                            lemma_without_keeps(p, v, 0, k);
                            assert(p.contains(u));
                        }
                        assert forall|u: usize, n: int|
                            #![trigger x3.contains(u), r[n]]
                            x3.contains(u) && 0 <= n < r.len() implies adjacent(lists, u, r[n]) by {
                            let k = choose|k: int| 0 <= k < x3.len() && x3[k] == u;
                            if k < x.len() {
                                assert(x[k] == u);
                                assert(x.contains(u));
                            } else {
                                assert(u == cands[i]);
                            }
                        }
                    }
                    assert(i < j);
                    lemma_branches_find_largest(lists, b, p3, r, x3, cands, i + 1, c, j);
                },
            }
        }
    }
}

/// The search over all `n` computers of a network in which no computer is
/// linked to itself and every link goes both ways gives a set with as many
/// members as a largest set of computers linked each to each has.
pub proof fn lemma_search_of_all_finds_largest(lists: Seq<Seq<usize>>, n: nat, c: Set<usize>)
    requires
        plain_graph(lists),
        largest(lists, c),
        n <= usize::MAX,
        forall|w: usize| #[trigger] c.contains(w) ==> w < n,
    ensures
        searched(lists, seq![], Seq::new(n, |i: int| i as usize), seq![], seq![]) matches Some(s)
            ==> s.len() >= c.len(),
{
    let p = Seq::new(n, |i: int| i as usize);
    let none = Seq::<usize>::empty();
    assert(framed(lists, c, p, none, none)) by {
        assert forall|w: usize| #[trigger] c.contains(w) implies none.contains(w) || p.contains(
            w,
        ) by {
            assert(p[w as int] == w);
        }
    }
    assert(seq![] =~= none);
    lemma_search_finds_largest(lists, none, p, none, none, c);
}

} // verus!
