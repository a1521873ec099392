//! The designs that the placement runs are shown on.

use crate::netlist;
use crate::netlist::{NetModel, Netlist, PinModel};
use crate::text;
use klayout_core::{CellId, LayerIndex};
use vstd::prelude::*;
use vstd::string::*;

verus! {

/// A pin on a net: the name of the net and the position of the cell.
#[derive(Debug)]
pub struct Link {
    pub net: String,
    pub cell: usize,
}

pub open spec fn link_models(v: Seq<Link>) -> Seq<(Seq<char>, usize)> {
    v.map_values(|l: Link| (l.net@, l.cell))
}

/// The nets that the first `n` links come to, each on the only port of its cell.
pub open spec fn linked(links: Seq<(Seq<char>, usize)>, n: int) -> Seq<NetModel>
    decreases n,
{
    if n <= 0 {
        Seq::empty()
    } else {
        netlist::connected(
            linked(links, n - 1),
            links[n - 1].0,
            PinModel { instance: links[n - 1].1, port: "p"@ },
        )
    }
}

/// Whether a design has one cell for each of some cells, named by number, none of them
/// fixed.
pub open spec fn has_cells(nl: Netlist, cells: Seq<CellId>) -> bool {
    &&& nl.instances@.len() == cells.len()
    &&& forall|i: int|
        #![trigger nl.instances@[i]]
        0 <= i < cells.len() ==> nl.instances@[i].name@ == "U"@ + text::dec(i as nat)
            && nl.instances@[i].cell == cells[i] && !nl.instances@[i].fixed
}

/// Whether a design is made of some cells and links, with its wires on a layer.
pub open spec fn is_design(
    nl: Netlist,
    name: Seq<char>,
    cells: Seq<CellId>,
    layer: LayerIndex,
    links: Seq<(Seq<char>, usize)>,
) -> bool {
    &&& nl.name@ == name
    &&& has_cells(nl, cells)
    &&& netlist::net_models(nl.nets@) == linked(links, links.len() as int)
    &&& nl.default_signal_layer == Some(layer)
    &&& nl.external_pins@.len() == 0
    &&& nl.match_groups@.len() == 0
}

fn numbered(prefix: &str, n: usize, suffix: &str) -> (res: String)
    ensures
        res@ == prefix@ + text::dec(n as nat) + suffix@,
{
    let mut s = prefix.to_owned();
    s.append(text::usize_to_string(n).as_str());
    s.append(suffix);
    s
}

fn build(name: &str, cells: &Vec<CellId>, layer: LayerIndex, links: &Vec<Link>) -> (res: Netlist)
    ensures
        is_design(res, name@, cells@, layer, link_models(links@)),
{
    let mut nl = Netlist::new(name).with_default_signal_layer(layer);
    let mut i: usize = 0;
    while i < cells.len()
        invariant
            i <= cells@.len(),
            nl.name@ == name@,
            nl.default_signal_layer == Some(layer),
            nl.nets@.len() == 0,
            nl.external_pins@.len() == 0,
            nl.match_groups@.len() == 0,
            has_cells(nl, cells@.take(i as int)),
        decreases cells@.len() - i,
    {
        let ghost before = nl;
        let title = numbered("U", i, "");
        proof {
            reveal_strlit("");
            assert(title@ =~= "U"@ + text::dec(i as nat));
        }
        let k: usize = nl.add_instance(title.as_str(), cells[i]);
        proof {
            assert forall|j: int|
                #![trigger nl.instances@[j]]
                0 <= j < i + 1 implies nl.instances@[j].name@ == "U"@ + text::dec(j as nat)
                && nl.instances@[j].cell == cells@.take(i + 1)[j] && !nl.instances@[j].fixed by {
                if j < i {
                    assert(nl.instances@.drop_last()[j] == nl.instances@[j]);
                    assert(before.instances@[j].cell == cells@.take(i as int)[j]);
                }
            }
        }
        i = i + 1;
    }
    assert(cells@.take(cells@.len() as int) =~= cells@);
    let ghost ls = link_models(links@);
    let mut k: usize = 0;
    assert(netlist::net_models(nl.nets@) =~= linked(ls, 0));
    while k < links.len()
        invariant
            k <= links@.len(),
            ls == link_models(links@),
            nl.name@ == name@,
            nl.default_signal_layer == Some(layer),
            nl.external_pins@.len() == 0,
            nl.match_groups@.len() == 0,
            has_cells(nl, cells@),
            netlist::net_models(nl.nets@) == linked(ls, k as int),
        decreases links@.len() - k,
    {
        assert(ls[k as int] == (links@[k as int].net@, links@[k as int].cell));
        nl.connect(links[k].net.as_str(), links[k].cell, "p");
        k = k + 1;
    }
    nl
}

/// Three cells on one net, and a chain of three more.
pub open spec fn small_links() -> Seq<(Seq<char>, usize)> {
    seq![
        ("netA"@, 0usize),
        ("netA"@, 1usize),
        ("netA"@, 2usize),
        ("bridge"@, 2usize),
        ("bridge"@, 3usize),
        ("chainA"@, 3usize),
        ("chainA"@, 4usize),
        ("chainB"@, 4usize),
        ("chainB"@, 5usize),
    ]
}

fn put_link(links: &mut Vec<Link>, net: &str, cell: usize)
    ensures
        link_models(final(links)@) == link_models(old(links)@).push((net@, cell)),
{
    let ghost before = links@;
    links.push(Link { net: net.to_owned(), cell });
    assert(link_models(links@) =~= link_models(before).push((net@, cell)));
}

/// A design of six cells.
pub fn small_design(cells: &Vec<CellId>, layer: LayerIndex) -> (res: Netlist)
    ensures
        is_design(res, "hpwl_optim"@, cells@, layer, small_links()),
{
    let mut links: Vec<Link> = Vec::new();
    put_link(&mut links, "netA", 0);
    put_link(&mut links, "netA", 1);
    put_link(&mut links, "netA", 2);
    put_link(&mut links, "bridge", 2);
    put_link(&mut links, "bridge", 3);
    put_link(&mut links, "chainA", 3);
    put_link(&mut links, "chainA", 4);
    put_link(&mut links, "chainB", 4);
    put_link(&mut links, "chainB", 5);
    assert(link_models(links@) =~= small_links());
    build("hpwl_optim", cells, layer, &links)
}

/// The links inside cluster `k`: two nets of three pins and one across.
pub open spec fn cluster_links(k: nat, per: nat) -> Seq<(Seq<char>, usize)> {
    let a = "c"@ + text::dec(k) + "_a"@;
    let b = "c"@ + text::dec(k) + "_b"@;
    let d = "c"@ + text::dec(k) + "_diag"@;
    let base = k * per;
    seq![
        (a, base as usize),
        (a, (base + 1) as usize),
        (a, (base + 2) as usize),
        (b, (base + 1) as usize),
        (b, (base + 2) as usize),
        (b, (base + 3) as usize),
        (d, base as usize),
        (d, (base + 3) as usize),
    ]
}

/// The links inside the first `n` clusters.
pub open spec fn inner_links(per: nat, n: int) -> Seq<(Seq<char>, usize)>
    decreases n,
{
    if n <= 0 {
        Seq::empty()
    } else {
        inner_links(per, n - 1) + cluster_links((n - 1) as nat, per)
    }
}

/// The links from the first `n` clusters to the ones behind them, round a ring.
pub open spec fn outer_links(clusters: nat, per: nat, n: int) -> Seq<(Seq<char>, usize)>
    decreases n,
{
    if n <= 0 {
        Seq::empty()
    } else {
        let k = (n - 1) as nat;
        let next = (k + 1) % clusters;
        let net = "bridge_"@ + text::dec(k) + "_"@ + text::dec(next);
        outer_links(clusters, per, n - 1) + seq![
            (net, (k * per) as usize),
            (net, (next * per + 2) as usize),
        ]
    }
}

/// A ring of clusters of cells.
pub open spec fn ring_links(clusters: nat, per: nat) -> Seq<(Seq<char>, usize)> {
    inner_links(per, clusters as int) + outer_links(clusters, per, clusters as int)
}

fn put_cluster(links: &mut Vec<Link>, k: usize, per: usize)
    requires
        k * per + 3 <= usize::MAX,
    ensures
        link_models(final(links)@) == link_models(old(links)@) + cluster_links(
            k as nat,
            per as nat,
        ),
{
    let ghost before = link_models(links@);
    let base: usize = k * per;
    let a = numbered("c", k, "_a");
    let b = numbered("c", k, "_b");
    let d = numbered("c", k, "_diag");
    put_link(links, a.as_str(), base);
    put_link(links, a.as_str(), base + 1);
    put_link(links, a.as_str(), base + 2);
    put_link(links, b.as_str(), base + 1);
    put_link(links, b.as_str(), base + 2);
    put_link(links, b.as_str(), base + 3);
    put_link(links, d.as_str(), base);
    put_link(links, d.as_str(), base + 3);
    assert(link_models(links@) =~= before + cluster_links(k as nat, per as nat));
}

proof fn lemma_base(k: int, clusters: int, per: int)
    requires
        0 <= k < clusters,
        per >= 4,
    ensures
        0 <= k * per,
        k * per + 3 < clusters * per,
{
    assert(k * per + per <= clusters * per && 0 <= k * per) by (nonlinear_arith)
        requires
            0 <= k < clusters,
            per >= 4,
    ;
}

/// A design of clusters of cells in a ring.
pub fn ring_design(
    cells: &Vec<CellId>,
    layer: LayerIndex,
    clusters: usize,
    per: usize,
) -> (res: Netlist)
    requires
        per >= 4,
        clusters >= 1,
        clusters * per == cells@.len(),
    ensures
        is_design(
            res,
            "hpwl_at_scale"@,
            cells@,
            layer,
            ring_links(clusters as nat, per as nat),
        ),
{
    let n: usize = cells.len();
    let mut links: Vec<Link> = Vec::new();
    let mut k: usize = 0;
    assert(link_models(links@) =~= inner_links(per as nat, 0));
    while k < clusters
        invariant
            k <= clusters,
            per >= 4,
            n == clusters * per,
            link_models(links@) == inner_links(per as nat, k as int),
        decreases clusters - k,
    {
        proof {
            lemma_base(k as int, clusters as int, per as int);
        }
        put_cluster(&mut links, k, per);
        k = k + 1;
    }
    let ghost inner = link_models(links@);
    k = 0;
    assert(inner =~= inner + outer_links(clusters as nat, per as nat, 0));
    while k < clusters
        invariant
            k <= clusters,
            per >= 4,
            n == clusters * per,
            inner == inner_links(per as nat, clusters as int),
            link_models(links@) == inner + outer_links(clusters as nat, per as nat, k as int),
        decreases clusters - k,
    {
        let ghost before = link_models(links@);
        proof {
            lemma_base(k as int, clusters as int, per as int);
        }
        let next: usize = if k + 1 < clusters {
            k + 1
        } else {
            0
        };
        proof {
            lemma_base(next as int, clusters as int, per as int);
            if k + 1 < clusters {
                vstd::arithmetic::div_mod::lemma_small_mod((k + 1) as nat, clusters as nat);
            } else {
                vstd::arithmetic::div_mod::lemma_mod_self_0(clusters as int);
            }
        }
        let mut net = numbered("bridge_", k, "_");
        net.append(text::usize_to_string(next).as_str());
        put_link(&mut links, net.as_str(), k * per);
        put_link(&mut links, net.as_str(), next * per + 2);
        assert(link_models(links@) =~= before + seq![
            (net@, (k * per) as usize),
            (net@, (next * per + 2) as usize),
        ]);
        assert(link_models(links@) =~= inner + outer_links(clusters as nat, per as nat, k + 1));
        k = k + 1;
    }
    build("hpwl_at_scale", cells, layer, &links)
}

} // verus!
