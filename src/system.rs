use vstd::prelude::*;
use vstd::string::StringSliceAdditionalSpecFns;
use rand::rngs::SmallRng;
use rand::Rng;
use rand::SeedableRng;
use sha2::Digest;
use crate::mtree::MTree;
use crate::tree_model::{lemma_merge_correct, Id, TreeModel};

verus! {

#[verifier::external_type_specification]
#[verifier::external_body]
pub struct ExSmallRng(SmallRng);

/// The SHA-256 digest of a byte string.
pub uninterp spec fn sha256_of(bytes: Seq<u8>) -> Seq<u8>;

/// Relies on sha2::Sha256::digest: the 32-byte SHA-256 digest of `bytes`, which
/// depends on the bytes alone.
#[verifier::external_body]
fn sha256(bytes: &[u8]) -> (r: [u8; 32])
    ensures
        r@ == sha256_of(bytes@),
{
    let digest = sha2::Sha256::digest(bytes);
    let mut out = [0u8; 32];
    out.copy_from_slice(&digest);
    out
}

/// The generator that SmallRng::from_seed builds from a seed.
pub uninterp spec fn small_rng_of(seed: Seq<u8>) -> SmallRng;

/// Relies on rand's SeedableRng::from_seed for SmallRng: the generator's state, and so
/// its whole output stream, depends on the 32 seed bytes alone.
#[verifier::external_body]
fn small_rng_from_seed(seed: [u8; 32]) -> (r: SmallRng)
    ensures
        r == small_rng_of(seed@),
{
    SmallRng::from_seed(seed)
}

/// Relies on rand's Rng::random_range over `lo..=hi` for `i32`: a value drawn from the
/// generator that lies in the inclusive range; it panics on an empty range, which the
/// precondition rules out.
#[verifier::external_body]
fn random_i32_inclusive(rng: &mut SmallRng, lo: i32, hi: i32) -> (r: i32)
    requires
        lo <= hi,
    ensures
        lo <= r <= hi,
{
    rng.random_range(lo..=hi)
}

/// The seed material of a system: the SHA-256 digest of the seed string's UTF-8 bytes.
pub fn seed_from_string(seed: &str) -> (r: [u8; 32])
    ensures
        r@ == sha256_of(seed.spec_bytes()),
{
    sha256(seed.as_bytes())
}

/// Equal seed strings give equal seed material and identical generators: both depend
/// on the text alone.
pub proof fn lemma_seed_deterministic(a: &str, b: &str)
    requires
        a@ == b@,
    ensures
        sha256_of(a.spec_bytes()) == sha256_of(b.spec_bytes()),
        small_rng_of(sha256_of(a.spec_bytes())) == small_rng_of(sha256_of(b.spec_bytes())),
{
}

/// A reproducible generator for a seed string: SmallRng seeded with the SHA-256 digest
/// of the string's UTF-8 bytes, so equal strings give identical generators.
pub fn random_gen_from_string(seed: &str) -> (r: SmallRng)
    ensures
        r == small_rng_of(sha256_of(seed.spec_bytes())),
{
    small_rng_from_seed(seed_from_string(seed))
}

/// The number of stars that a percentile draw in `0..=100` stands for.
pub open spec fn star_amount_spec(draw: i32) -> u32 {
    if 0 <= draw <= 70 {
        1
    } else if 71 <= draw <= 95 {
        2
    } else if 96 <= draw <= 99 {
        3
    } else if draw == 100 {
        4
    } else {
        5
    }
}

/// Maps a percentile draw to a star count: 71% single stars, 25% binaries, 4% triples
/// and a single percentile of quadruples.
pub fn star_amount_for_draw(draw: i32) -> (r: u32)
    ensures
        r == star_amount_spec(draw),
{
    match draw {
        0..=70 => 1,
        71..=95 => 2,
        96..=99 => 3,
        100 => 4,
        _ => 5,
    }
}

/// Draws a star count from the generator; the result is 1, 2, 3 or 4.
pub fn draw_star_amount(rng: &mut SmallRng) -> (r: u32)
    ensures
        1 <= r <= 4,
        exists|draw: i32| 0 <= draw <= 100 && r == star_amount_spec(draw),
{
    let draw = random_i32_inclusive(rng, 0, 100);
    star_amount_for_draw(draw)
}

/// Number of stable arrangements for a system of `stars` stars.
pub open spec fn arrangement_count(stars: u32) -> int {
    if stars == 1 || stars == 2 {
        1
    } else {
        ((stars / 3) - (stars % 2)) / 2 + 1
    }
}

/// Returns the number of stable star arrangements for this number of stars.
pub fn get_arrangement_num(stars: u32) -> (r: u32)
    ensures
        r == arrangement_count(stars),
{
    match stars {
        1 => 1,
        2 => 1,
        _ => ((stars / 3) - (stars % 2)) / 2 + 1,
    }
}

/// The total number of moons over a list of planets with their moons.
pub open spec fn moon_total<T>(planets: Seq<(T, Vec<T>)>) -> nat
    decreases planets.len(),
{
    if planets.len() == 0 {
        0
    } else {
        moon_total(planets.drop_last()) + planets.last().1@.len()
    }
}

/// The tree `t` has a root holding `root`, whose children are the planets in order,
/// each holding exactly its moons in order, and each moon is a leaf.
pub open spec fn is_system_tree<T>(t: TreeModel<T>, root: T, planets: Seq<(T, Vec<T>)>) -> bool {
    &&& t.wf()
    &&& t.root == 0
    &&& t.value_of(0) == root
    &&& t.children_of(0).len() == planets.len()
    &&& forall|i: int|
        #![trigger t.children_of(0)[i]]
        0 <= i < planets.len() ==> {
            let p = t.children_of(0)[i];
            &&& t.value_of(p) == planets[i].0
            &&& t.children_of(p).len() == planets[i].1@.len()
            &&& forall|j: int|
                #![trigger t.children_of(p)[j]]
                0 <= j < planets[i].1@.len() ==> {
                    &&& t.value_of(t.children_of(p)[j]) == planets[i].1@[j]
                    &&& t.children_of(t.children_of(p)[j]).len() == 0
                }
        }
}

/// A planet tree: the planet at the root with its moons as leaves below it, in order.
fn planet_tree<T>(planet: T, moons: Vec<T>) -> (r: MTree<T>)
    requires
        moons@.len() < u32::MAX,
    ensures
        r@.wf(),
        r@.root == 0,
        r@.last_id == moons@.len(),
        r@.size() == moons@.len() + 1,
        r@.value_of(0) == planet,
        r@.children_of(0).len() == moons@.len(),
        forall|j: int|
            #![trigger r@.children_of(0)[j]]
            0 <= j < moons@.len() ==> {
                &&& r@.value_of(r@.children_of(0)[j]) == moons@[j]
                &&& r@.children_of(r@.children_of(0)[j]).len() == 0
                &&& r@.children_of(0)[j] != 0
            },
{
    let ghost all = moons@;
    let mut tree = MTree::new(planet);
    let mut rest = moons;
    let mut k: usize = 0;
    proof {
        assert(tree@.nodes.dom() =~= set![0u32]);
    }
    while rest.len() > 0
        invariant
            tree@.wf(),
            tree@.root == 0,
            tree@.last_id == k,
            tree@.size() == k + 1,
            all.len() < u32::MAX,
            k + rest@.len() == all.len(),
            rest@ == all.subrange(k as int, all.len() as int),
            tree@.value_of(0) == planet,
            tree@.children_of(0).len() == k,
            forall|j: int|
                #![trigger tree@.children_of(0)[j]]
                0 <= j < k ==> {
                    &&& tree@.value_of(tree@.children_of(0)[j]) == all[j]
                    &&& tree@.children_of(tree@.children_of(0)[j]).len() == 0
                    &&& tree@.children_of(0)[j] != 0
                },
        decreases rest.len(),
    {
        let ghost before = tree@;
        let moon = rest.remove(0);
        assert(moon == all[k as int]);
        let id = tree.append(0, moon);
        proof {
            let n = (before.last_id + 1) as Id;
            assert(!before.contains(n)) by {
                if before.contains(n) {
                    assert(n <= before.last_id);
                }
            }
            assert(tree@.nodes.dom() =~= before.nodes.dom().insert(n));
            assert forall|j: int| 0 <= j < k implies tree@.children_of(0)[j] == before.children_of(0)[j]
                && #[trigger] tree@.nodes[before.children_of(0)[j]] == before.nodes[before.children_of(0)[j]] by {
                assert(before.contains(before.children_of(0)[j]));
                assert(before.children_of(0)[j] <= before.last_id);
            }
            assert(rest@ =~= all.subrange(k + 1, all.len() as int));
        }
        k += 1;
    }
    tree
}

/// Builds the tree of a system: `root` (a star or a barycenter) at the root, each
/// planet merged below it in order, and each planet's moons as leaves below that planet.
pub fn assemble_system<T>(root: T, planets: Vec<(T, Vec<T>)>) -> (r: MTree<T>)
    requires
        planets@.len() + moon_total(planets@) < u32::MAX,
    ensures
        is_system_tree(r@, root, planets@),
        r@.size() == 1 + planets@.len() + moon_total(planets@),
{
    let ghost all = planets@;
    let mut tree = MTree::new(root);
    let mut rest = planets;
    let mut k: usize = 0;
    proof {
        assert(tree@.nodes.dom() =~= set![0u32]);
        assert(all.subrange(0, 0) =~= Seq::<(T, Vec<T>)>::empty());
    }
    while rest.len() > 0
        invariant
            is_system_tree(tree@, root, all.subrange(0, k as int)),
            tree@.last_id + 1 == tree@.size(),
            tree@.size() == 1 + k + moon_total(all.subrange(0, k as int)),
            all.len() + moon_total(all) < u32::MAX,
            k + rest@.len() == all.len(),
            rest@ == all.subrange(k as int, all.len() as int),
        decreases rest.len(),
    {
        let ghost before = tree@;
        let (planet, moons) = rest.remove(0);
        assert((planet, moons) == all[k as int]);
        proof {
            lemma_moon_total_prefix(all, k as int + 1);
        }
        let sub = planet_tree(planet, moons);
        let ghost d = sub@;
        let mut h = tree.root_handle();
        h.merge(sub);
        proof {
            lemma_merge_correct(before, 0, d);
            assert(rest@ =~= all.subrange(k + 1, all.len() as int));
            lemma_system_step(before, d, root, all, k as int);
        }
        k += 1;
    }
    proof {
        assert(all.subrange(0, k as int) =~= all);
    }
    tree
}

proof fn lemma_moon_total_prefix<T>(all: Seq<(T, Vec<T>)>, k: int)
    requires
        0 < k <= all.len(),
    ensures
        moon_total(all.subrange(0, k)) == moon_total(all.subrange(0, k - 1)) + all[k - 1].1@.len(),
        moon_total(all.subrange(0, k)) <= moon_total(all),
    decreases all.len() - k,
{
    assert(all.subrange(0, k).drop_last() =~= all.subrange(0, k - 1));
    if k < all.len() {
        lemma_moon_total_prefix(all, k + 1);
    } else {
        assert(all.subrange(0, k) =~= all);
    }
}

proof fn lemma_system_step<T>(t: TreeModel<T>, d: TreeModel<T>, root: T, all: Seq<(T, Vec<T>)>, k: int)
    requires
        0 <= k < all.len(),
        is_system_tree(t, root, all.subrange(0, k)),
        d.wf(),
        d.root == 0,
        d.value_of(0) == all[k].0,
        d.children_of(0).len() == all[k].1@.len(),
        forall|j: int|
            #![trigger d.children_of(0)[j]]
            0 <= j < all[k].1@.len() ==> {
                &&& d.value_of(d.children_of(0)[j]) == all[k].1@[j]
                &&& d.children_of(d.children_of(0)[j]).len() == 0
                &&& d.children_of(0)[j] != 0
            },
        t.last_id + 1 + d.last_id <= u32::MAX,
    ensures
        is_system_tree(t.graft(0, d), root, all.subrange(0, k + 1)),
{
    let g = t.graft(0, d);
    let off = t.last_id + 1;
    let pre = all.subrange(0, k);
    let post = all.subrange(0, k + 1);
    lemma_merge_correct(t, 0, d);
    assert forall|i: int| 0 <= i < post.len() implies {
        let p = #[trigger] g.children_of(0)[i];
        &&& g.value_of(p) == post[i].0
        &&& g.children_of(p).len() == post[i].1@.len()
        &&& forall|j: int|
            #![trigger g.children_of(p)[j]]
            0 <= j < post[i].1@.len() ==> {
                &&& g.value_of(g.children_of(p)[j]) == post[i].1@[j]
                &&& g.children_of(g.children_of(p)[j]).len() == 0
            }
    } by {
        let p = g.children_of(0)[i];
        if i < k {
            assert(p == t.children_of(0)[i]);
            assert(pre[i] == post[i]);
            assert(t.contains(p) && p != 0) by {
                assert(t.parent_of(t.children_of(0)[i]) == Some(0u32));
            }
            assert(g.nodes[p] == t.nodes[p]);
            assert forall|j: int| 0 <= j < post[i].1@.len() implies {
                &&& g.value_of(#[trigger] g.children_of(p)[j]) == post[i].1@[j]
                &&& g.children_of(g.children_of(p)[j]).len() == 0
            } by {
                let m = t.children_of(p)[j];
                assert(t.contains(m) && t.parent_of(m) == Some(p));
                assert(m != 0) by {
                    assert(t.nodes[m].parent is Some);
                }
                assert(g.nodes[m] == t.nodes[m]);
            }
        } else {
            assert(p == (d.root + off) as Id);
            assert(d.contains(0));
            assert forall|j: int| 0 <= j < post[i].1@.len() implies {
                &&& g.value_of(#[trigger] g.children_of(p)[j]) == post[i].1@[j]
                &&& g.children_of(g.children_of(p)[j]).len() == 0
            } by {
                let m = d.children_of(0)[j];
                assert(d.contains(m));
                assert(g.children_of(p)[j] == (m + off) as Id);
            }
        }
    }
}

} // verus!
