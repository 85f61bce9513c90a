//! How many fds the renderer keeps of each imported plane.
//!
//! A GLES renderer may keep copies of an imported plane's fd, which count
//! against the client that owns the buffer. The number is learned once per
//! session, from how many fds name the buffer's file before and after an
//! import. Planes are admitted with the copies that the session has learned,
//! or with one copy per backend until it has learned any, and an import then
//! says what they really cost. That is more than a plane was admitted at where
//! the session learns of more than one copy: such planes were charged too
//! little, and the fd ledger that the weights go to does not raise them.

use crate::state::{RendererKind, State};
use vstd::prelude::*;

verus! {

/// The most copies per plane per backend a probe will believe.
pub const MAX_COPIES_PER_PLANE: u8 = 4;

/// How many of `backends` are GLES.
pub open spec fn gles_count(backends: Seq<RendererKind>) -> nat
    decreases backends.len(),
{
    if backends.len() == 0 {
        0
    } else {
        gles_count(backends.drop_last()) + if backends.last() == RendererKind::Gles {
            1nat
        } else {
            0
        }
    }
}

/// How many backends a dma-buf import goes into as GLES.
pub fn gles_backends(state: &State) -> (n: usize)
    ensures
        n == gles_count(state.backends@),
        n <= state.backends@.len(),
{
    let mut n: usize = 0;
    let mut i: usize = 0;
    assert(state.backends@.take(0) =~= Seq::empty());
    while i < state.backends.len()
        invariant
            i <= state.backends@.len(),
            n <= i,
            n == gles_count(state.backends@.take(i as int)),
        decreases state.backends@.len() - i,
    {
        proof {
            assert(state.backends@.take(i + 1).drop_last() =~= state.backends@.take(i as int));
            assert(state.backends@.take(i + 1).last() == state.backends@[i as int]);
        }
        if state.backends[i] == RendererKind::Gles {
            n += 1;
        }
        i += 1;
    }
    assert(state.backends@.take(i as int) =~= state.backends@);
    n
}

/// `n` divided by `d`, rounded up.
pub open spec fn divided_up(n: int, d: int) -> int {
    (n + d - 1) / d
}

/// The slots that copies are spread over: one per plane and backend, and at
/// least one.
pub open spec fn slots(planes: usize, backends: usize) -> int {
    let backends = if backends == 0 {
        1
    } else {
        backends as int
    };
    let product = planes * backends;
    if product == 0 {
        1
    } else if product > usize::MAX {
        usize::MAX as int
    } else {
        product
    }
}

/// `copies` spread over planes and backends, rounded up and capped.
pub open spec fn copies_per_plane(copies: usize, planes: usize, backends: usize) -> u8 {
    let ratio = divided_up(copies as int, slots(planes, backends));
    if ratio > MAX_COPIES_PER_PLANE {
        MAX_COPIES_PER_PLANE
    } else {
        ratio as u8
    }
}

/// `copies` spread over `planes` planes and `backends` backends, rounded up
/// and capped at [`MAX_COPIES_PER_PLANE`].
pub fn per_plane(copies: usize, planes: usize, backends: usize) -> (ratio: u8)
    ensures
        ratio == copies_per_plane(copies, planes, backends),
{
    let backends: usize = if backends == 0 {
        1
    } else {
        backends
    };
    let product: usize = match planes.checked_mul(backends) {
        Some(product) => product,
        None => usize::MAX,
    };
    let per: usize = if product == 0 {
        1
    } else {
        product
    };
    let whole: usize = copies / per;
    proof {
        lemma_divided_up(copies as int, per as int);
    }
    if whole >= MAX_COPIES_PER_PLANE as usize {
        return MAX_COPIES_PER_PLANE;
    }
    if copies % per == 0 {
        whole as u8
    } else {
        whole as u8 + 1
    }
}

proof fn lemma_divided_up(n: int, d: int)
    requires
        n >= 0,
        d > 0,
    ensures
        divided_up(n, d) == if n % d == 0 {
            n / d
        } else {
            n / d + 1
        },
        n / d >= 0,
{
    vstd::arithmetic::div_mod::lemma_fundamental_div_mod(n, d);
    let q = n / d;
    let r = n % d;
    assert(d * q == q * d) by (nonlinear_arith);
    if r == 0 {
        assert(n + d - 1 == q * d + (d - 1));
        vstd::arithmetic::div_mod::lemma_fundamental_div_mod_converse(n + d - 1, d, q, d - 1);
    } else {
        assert((q + 1) * d == q * d + d) by (nonlinear_arith);
        assert(n + d - 1 == (q + 1) * d + (r - 1));
        vstd::arithmetic::div_mod::lemma_fundamental_div_mod_converse(n + d - 1, d, q + 1, r - 1);
    }
    vstd::arithmetic::div_mod::lemma_div_pos_is_pos(n, d);
}

/// What counts before and after an import teach: nothing when fds on the file
/// were closed meanwhile, and otherwise the copies per plane per backend.
pub open spec fn learned_from(before: usize, after: usize, planes: usize, backends: usize) -> Option<
    u8,
> {
    if after < before {
        None
    } else {
        Some(copies_per_plane((after - before) as usize, planes, backends))
    }
}

/// The copies per plane per backend from counts `before` and `after` an
/// import of `planes` planes into `backends` GLES backends.
pub fn learn(before: usize, after: usize, planes: usize, backends: usize) -> (copies: Option<u8>)
    ensures
        copies == learned_from(before, after, planes, backends),
{
    if after < before {
        return None;
    }
    Some(per_plane(after - before, planes, backends))
}

/// `a * b`, and the largest number a weight can be where that is more.
pub open spec fn capped_product(a: u8, b: nat) -> u8 {
    if a * b > u8::MAX {
        u8::MAX
    } else {
        (a * b) as u8
    }
}

fn saturating_product(a: u8, b: usize) -> (product: u8)
    ensures
        product == capped_product(a, b as nat),
{
    if a == 0 {
        assert(0 * b == 0) by (nonlinear_arith);
        return 0;
    }
    if b > 255 {
        assert(a * b > 255) by (nonlinear_arith)
            requires
                a >= 1,
                b > 255,
        ;
        return 255;
    }
    assert(a * b <= 255 * 255) by (nonlinear_arith)
        requires
            a <= 255,
            b <= 255,
    ;
    let wide: u32 = a as u32 * b as u32;
    if wide > 255 {
        255
    } else {
        wide as u8
    }
}

/// The weight of a plane that arrives now: 1, plus the copies each GLES
/// backend will make of it, one each until the number is learned.
pub open spec fn weight_of(learned: Option<u8>, backends: nat) -> u8 {
    if backends == 0 {
        1
    } else {
        let copies = capped_product(
            match learned {
                Some(copies) => copies,
                None => 1,
            },
            backends,
        );
        if copies == u8::MAX {
            u8::MAX
        } else {
            (copies + 1) as u8
        }
    }
}

/// The weight a plane arriving now is admitted at in the fd ledger.
pub fn plane_weight(state: &State) -> (weight: u8)
    ensures
        weight == weight_of(state.renderer_plane_copies, gles_count(state.backends@)),
{
    let backends: usize = gles_backends(state);
    if backends == 0 {
        return 1;
    }
    let per_backend: u8 = match state.renderer_plane_copies {
        Some(copies) => copies,
        None => 1,
    };
    let copies: u8 = saturating_product(per_backend, backends);
    if copies == 255 {
        255
    } else {
        copies + 1
    }
}

/// The first half of the measurement: the identity of the buffer's file, and
/// how many fds named it before the import.
#[derive(Clone, Copy, Debug, PartialEq, Eq, Structural)]
pub struct Probe {
    pub dev: u64,
    pub ino: u64,
    pub before: usize,
}

/// `(dev, ino)` may be the buffer's file, with no pool open on it.
pub open spec fn names_no_pool<
    I: FnOnce() -> Option<(u64, u64)>,
    N: FnOnce(u64, u64) -> bool,
>(identity: I, pool_names: N, dev: u64, ino: u64) -> bool {
    &&& call_ensures(identity, (), Some((dev, ino)))
    &&& call_ensures(pool_names, (dev, ino), false)
}

/// `probe` is what the first half of the measurement may answer: nothing on a
/// session that has learned already or has no GLES backend, where nothing is
/// asked; and otherwise a count of the fds naming the file, if it has an
/// identity, no pool is open on it, and they can be counted.
pub open spec fn probed<
    I: FnOnce() -> Option<(u64, u64)>,
    N: FnOnce(u64, u64) -> bool,
    C: Fn(u64, u64) -> Option<usize>,
>(
    learned: Option<u8>,
    backends: nat,
    identity: I,
    pool_names: N,
    fds_naming: C,
    probe: Option<Probe>,
) -> bool {
    if learned is Some || backends == 0 {
        probe is None
    } else {
        exists|file: Option<(u64, u64)>| #[trigger]
            call_ensures(identity, (), file) && match file {
                None => probe is None,
                Some((dev, ino)) => exists|pool: bool| #[trigger]
                    call_ensures(pool_names, (dev, ino), pool) && if pool {
                        probe is None
                    } else {
                        exists|count: Option<usize>| #[trigger]
                            call_ensures(fds_naming, (dev, ino), count) && match count {
                                Some(before) => probe == Some(Probe { dev, ino, before }),
                                None => probe is None,
                            }
                    },
            }
    }
}

/// How many of `planes` are on the file `(dev, ino)`.
pub open spec fn planes_on_file(planes: Seq<Option<(u64, u64)>>, dev: u64, ino: u64) -> nat
    decreases planes.len(),
{
    if planes.len() == 0 {
        0
    } else {
        planes_on_file(planes.drop_last(), dev, ino) + if planes.last() == Some((dev, ino)) {
            1nat
        } else {
            0
        }
    }
}

/// `copies` is what the second half of the measurement may answer: what the
/// counts teach, if the second can be taken.
pub open spec fn measured<
    C: Fn(u64, u64) -> Option<usize>,
    V: FnOnce() -> Vec<Option<(u64, u64)>>,
>(
    probe: Probe,
    backends: nat,
    fds_naming: C,
    identities: V,
    copies: Option<u8>,
) -> bool {
    exists|after: Option<usize>| #[trigger]
        call_ensures(fds_naming, (probe.dev, probe.ino), after) && match after {
            None => copies is None,
            Some(after) => exists|planes: Vec<Option<(u64, u64)>>| #[trigger]
                call_ensures(identities, (), planes) && copies == learned_from(
                    probe.before,
                    after,
                    planes_on_file(planes@, probe.dev, probe.ino) as usize,
                    backends as usize,
                ),
        }
}

/// How many of `files`, the files behind fds as far as they have an identity, are `(dev, ino)`.
pub fn fds_on_file(files: &Vec<Option<(u64, u64)>>, dev: u64, ino: u64) -> (n: usize)
    ensures
        n == planes_on_file(files@, dev, ino),
{
    let mut n: usize = 0;
    let mut i: usize = 0;
    assert(files@.take(0) =~= Seq::empty());
    while i < files.len()
        invariant
            i <= files@.len(),
            n <= i,
            n == planes_on_file(files@.take(i as int), dev, ino),
        decreases files@.len() - i,
    {
        proof {
            assert(files@.take(i + 1).drop_last() =~= files@.take(i as int));
            assert(files@.take(i + 1).last() == files@[i as int]);
        }
        if let Some((d, o)) = files[i] {
            if d == dev && o == ino {
                n += 1;
            }
        }
        i += 1;
    }
    assert(files@.take(i as int) =~= files@);
    n
}

impl Probe {
    /// Counts the fds naming the buffer's file, if this import can be learned
    /// from. `identity` answers the file, `pool_names` whether a pool is open
    /// on it, and `fds_naming` how many fds name it.
    pub fn before<
        I: FnOnce() -> Option<(u64, u64)>,
        N: FnOnce(u64, u64) -> bool,
        C: Fn(u64, u64) -> Option<usize>,
    >(state: &State, identity: I, pool_names: N, fds_naming: &C) -> (probe: Option<Probe>)
        requires
            state.renderer_plane_copies is None && gles_count(state.backends@) > 0 ==> {
                &&& call_requires(identity, ())
                &&& forall|dev: u64, ino: u64|
                    call_ensures(identity, (), Some((dev, ino))) ==> #[trigger] call_requires(
                        pool_names,
                        (dev, ino),
                    )
                &&& forall|dev: u64, ino: u64|
                    names_no_pool(identity, pool_names, dev, ino) ==> #[trigger] call_requires(
                        *fds_naming,
                        (dev, ino),
                    )
            },
        ensures
            probed(
                state.renderer_plane_copies,
                gles_count(state.backends@),
                identity,
                pool_names,
                *fds_naming,
                probe,
            ),
    {
        if state.renderer_plane_copies.is_some() || gles_backends(state) == 0 {
            return None;
        }
        let file = identity();
        let (dev, ino): (u64, u64) = match file {
            Some((dev, ino)) => (dev, ino),
            None => {
                return None;
            },
        };
        let pool: bool = pool_names(dev, ino);
        if pool {
            return None;
        }
        let count = fds_naming(dev, ino);
        match count {
            Some(before) => Some(Probe { dev, ino, before }),
            None => None,
        }
    }

    /// What this import teaches: the copies per plane per backend it made, if
    /// the second count can be taken and nothing disturbed the first.
    /// `identities` answers the file of each plane.
    pub fn copies<C: Fn(u64, u64) -> Option<usize>, V: FnOnce() -> Vec<Option<(u64, u64)>>>(
        &self,
        backends: usize,
        fds_naming: &C,
        identities: V,
    ) -> (copies: Option<u8>)
        requires
            call_requires(*fds_naming, (self.dev, self.ino)),
            forall|after: usize| #[trigger]
                call_ensures(*fds_naming, (self.dev, self.ino), Some(after)) ==> call_requires(
                    identities,
                    (),
                ),
        ensures
            measured(*self, backends as nat, *fds_naming, identities, copies),
    {
        let after = fds_naming(self.dev, self.ino);
        match after {
            None => None,
            Some(after) => {
                let planes = identities();
                let n: usize = fds_on_file(&planes, self.dev, self.ino);
                learn(self.before, after, n, backends)
            },
        }
    }
}

/// `learned` and `settled` are what charging an import may leave: what the
/// session then knows of its renderer's copies, and the copies that each of the
/// import's planes is settled at, if any.
pub open spec fn charged<
    C: Fn(u64, u64) -> Option<usize>,
    V: FnOnce() -> Vec<Option<(u64, u64)>>,
>(
    known: Option<u8>,
    backends: nat,
    probe: Option<Probe>,
    fds_naming: C,
    identities: V,
    learned: Option<u8>,
    settled: Option<u8>,
) -> bool {
    if backends == 0 {
        learned == known && settled is None
    } else {
        match known {
            Some(copies) => learned == known && settled == Some(capped_product(copies, backends)),
            None => match probe {
                None => learned is None && settled is None,
                Some(probe) => {
                    &&& measured(probe, backends, fds_naming, identities, learned)
                    &&& settled == match learned {
                        Some(copies) => Some(capped_product(copies, backends)),
                        None => None,
                    }
                },
            },
        }
    }
}

/// Settles the planes of a buffer just imported into every backend: learns
/// the renderer's copies from `probe` if the session has not yet, and answers
/// the weight the planes are lowered to once it knows.
pub fn charge<C: Fn(u64, u64) -> Option<usize>, V: FnOnce() -> Vec<Option<(u64, u64)>>>(
    state: &mut State,
    probe: Option<Probe>,
    fds_naming: &C,
    identities: V,
) -> (settled: Option<u8>)
    requires
        probe is Some && old(state).renderer_plane_copies is None && gles_count(
            old(state).backends@,
        ) > 0 ==> {
            &&& call_requires(*fds_naming, (probe->0.dev, probe->0.ino))
            &&& forall|after: usize| #[trigger]
                call_ensures(*fds_naming, (probe->0.dev, probe->0.ino), Some(after))
                    ==> call_requires(identities, ())
        },
    ensures
        *final(state) == (State {
            renderer_plane_copies: final(state).renderer_plane_copies,
            ..*old(state)
        }),
        charged(
            old(state).renderer_plane_copies,
            gles_count(old(state).backends@),
            probe,
            *fds_naming,
            identities,
            final(state).renderer_plane_copies,
            settled,
        ),
{
    let backends: usize = gles_backends(state);
    if backends == 0 {
        return None;
    }
    let per_backend: u8 = match state.renderer_plane_copies {
        Some(copies) => copies,
        None => match probe {
            None => {
                return None;
            },
            Some(probe) => match probe.copies(backends, fds_naming, identities) {
                Some(copies) => {
                    state.renderer_plane_copies = Some(copies);
                    copies
                },
                None => {
                    return None;
                },
            },
        },
    };
    Some(saturating_product(per_backend, backends))
}

/// A count is never spread so thin that it hides fds: the copies charged cover
/// the copies found, unless the cap is reached.
pub proof fn a_count_never_hides_fds(copies: usize, planes: usize, backends: usize)
    ensures
        copies_per_plane(copies, planes, backends) <= MAX_COPIES_PER_PLANE,
        copies_per_plane(copies, planes, backends) < MAX_COPIES_PER_PLANE ==> copies_per_plane(
            copies,
            planes,
            backends,
        ) * slots(planes, backends) >= copies,
        copies == 0 ==> copies_per_plane(copies, planes, backends) == 0,
        copies > 0 ==> copies_per_plane(copies, planes, backends) > 0,
{
    let d = slots(planes, backends);
    let n = copies as int;
    assert(d > 0) by {
        if backends > 0 {
            assert(planes * backends >= 0) by (nonlinear_arith);
        }
    }
    lemma_divided_up(n, d);
    vstd::arithmetic::div_mod::lemma_fundamental_div_mod(n, d);
    let q = n / d;
    assert(d * (q + 1) == d * q + d) by (nonlinear_arith);
    assert(divided_up(n, d) * d >= n) by {
        if n % d == 0 {
            assert(q * d == d * q) by (nonlinear_arith);
        } else {
            assert((q + 1) * d == d * (q + 1)) by (nonlinear_arith);
        }
    }
    if n > 0 && q == 0 && n % d == 0 {
        assert(d * q == 0) by (nonlinear_arith)
            requires
                q == 0,
        ;
    }
    if n == 0 {
        vstd::arithmetic::div_mod::lemma_div_of0(d);
        vstd::arithmetic::div_mod::lemma_mod_self_0(d);
        assert(d * q == 0) by (nonlinear_arith)
            requires
                q == 0,
        ;
    }
}

/// What a plane is settled at, with the plane itself, is at most what it was
/// admitted at, where the number was known then or is learned now to be no
/// more than the one copy assumed.
pub proof fn a_plane_is_settled_within_what_was_known(
    admitted: Option<u8>,
    learned: u8,
    backends: nat,
)
    requires
        backends > 0,
        match admitted {
            Some(copies) => copies == learned,
            None => learned <= 1,
        },
    ensures
        capped_product(learned, backends) < u8::MAX ==> capped_product(learned, backends) + 1
            <= weight_of(admitted, backends),
{
    if admitted is None {
        assert(learned * backends <= 1 * backends) by (nonlinear_arith)
            requires
                learned <= 1,
                backends > 0,
        ;
    }
}

/// Once the copies per plane per backend are known, now or before, an import's planes are settled
/// at that number for each GLES backend, and at most at 255. Until then, and without a GLES
/// backend, nothing is settled. What was known stays known.
pub proof fn an_import_is_settled_for_every_backend<
    C: Fn(u64, u64) -> Option<usize>,
    V: FnOnce() -> Vec<Option<(u64, u64)>>,
>(
    known: Option<u8>,
    backends: nat,
    probe: Option<Probe>,
    fds_naming: C,
    identities: V,
    learned: Option<u8>,
    settled: Option<u8>,
)
    requires
        charged(known, backends, probe, fds_naming, identities, learned, settled),
    ensures
        known is Some ==> learned == known,
        settled is Some <==> backends > 0 && learned is Some,
        settled is Some && learned->0 * backends <= 255 ==> settled->0 == learned->0 * backends,
        settled is Some && learned->0 * backends > 255 ==> settled->0 == 255,
        learned is Some && known is None ==> backends > 0 && probe is Some,
{
}

/// A plane that is admitted when the copies are known is settled at exactly what it was admitted
/// at, the plane itself counted once, while that is below 255.
pub proof fn a_known_plane_is_settled_as_it_was_admitted<
    C: Fn(u64, u64) -> Option<usize>,
    V: FnOnce() -> Vec<Option<(u64, u64)>>,
>(
    known: u8,
    backends: nat,
    probe: Option<Probe>,
    fds_naming: C,
    identities: V,
    learned: Option<u8>,
    settled: Option<u8>,
)
    requires
        backends > 0,
        charged(Some(known), backends, probe, fds_naming, identities, learned, settled),
    ensures
        settled is Some,
        weight_of(Some(known), backends) < 255 ==> settled->0 + 1 == weight_of(
            Some(known),
            backends,
        ),
        settled->0 + 1 >= weight_of(Some(known), backends),
{
}

/// A plane is admitted at one for itself and, for each GLES backend, the copies that are known, or
/// one until they are; at most at 255.
pub proof fn a_plane_weighs_itself_and_its_copies(known: Option<u8>, backends: nat)
    ensures
        known is None && backends < 255 ==> weight_of(known, backends) == 1 + backends,
        known is None && backends >= 255 ==> weight_of(known, backends) == 255,
        known is Some && known->0 * backends < 255 ==> weight_of(known, backends) == 1 + known->0
            * backends,
        known is Some && known->0 * backends >= 255 ==> weight_of(known, backends) == 255,
{
    assert(1 * backends == backends);
    if known is Some && backends == 0 {
        assert(known->0 * backends == 0) by (nonlinear_arith)
            requires
                backends == 0,
        ;
    }
}

/// The copies that an import teaches are the fewest for each plane and backend that account for the
/// fds that came to name the file, and at most 4. A file that fewer fds name than before teaches
/// nothing.
pub proof fn an_import_teaches_the_fewest_copies_that_account_for_its_fds(
    before: usize,
    after: usize,
    planes: usize,
    backends: usize,
)
    requires
        planes > 0,
        backends > 0,
        planes * backends <= usize::MAX,
    ensures
        after < before ==> learned_from(before, after, planes, backends) is None,
        after >= before ==> learned_from(before, after, planes, backends) is Some && {
            let copies = learned_from(before, after, planes, backends)->0;
            &&& copies <= 4
            &&& copies < 4 ==> copies * (planes * backends) >= after - before
            &&& copies > 0 ==> (copies - 1) * (planes * backends) < after - before
        },
{
    let d = planes * backends;
    assert(d > 0) by (nonlinear_arith)
        requires
            d == planes * backends,
            planes > 0,
            backends > 0,
    ;
    assert(slots(planes, backends) == d);
    if after >= before {
        let n = after - before;
        let copies = copies_per_plane((after - before) as usize, planes, backends);
        a_count_never_hides_fds((after - before) as usize, planes, backends);
        lemma_divided_up(n, d);
        vstd::arithmetic::div_mod::lemma_fundamental_div_mod(n, d);
        let q = n / d;
        assert((copies - 1) * d < n || copies == 0) by {
            if copies > 0 {
                assert(copies <= divided_up(n, d));
                if n % d == 0 {
                    assert((copies - 1) * d < d * q) by (nonlinear_arith)
                        requires
                            copies <= q,
                            d > 0,
                    ;
                } else {
                    assert((copies - 1) * d <= d * q) by (nonlinear_arith)
                        requires
                            copies <= q + 1,
                            d > 0,
                    ;
                }
            }
        }
    }
}

/// A probe is taken only in a session with a GLES backend that has not learned yet, of a file that
/// the buffer has and no pool is open on, with the count of the fds that name it; and it is left out
/// there only where the buffer has no identity, a pool is open on it, or the fds cannot be counted.
pub proof fn a_probe_is_taken_of_an_undisturbed_file<
    I: FnOnce() -> Option<(u64, u64)>,
    N: FnOnce(u64, u64) -> bool,
    C: Fn(u64, u64) -> Option<usize>,
>(
    learned: Option<u8>,
    backends: nat,
    identity: I,
    pool_names: N,
    fds_naming: C,
    probe: Option<Probe>,
)
    requires
        probed(learned, backends, identity, pool_names, fds_naming, probe),
    ensures
        match probe {
            Some(probe) => {
                &&& learned is None
                &&& backends > 0
                &&& call_ensures(identity, (), Some((probe.dev, probe.ino)))
                &&& call_ensures(pool_names, (probe.dev, probe.ino), false)
                &&& call_ensures(fds_naming, (probe.dev, probe.ino), Some(probe.before))
            },
            None => {
                ||| learned is Some
                ||| backends == 0
                ||| call_ensures(identity, (), None)
                ||| exists|dev: u64, ino: u64| #[trigger]
                    call_ensures(pool_names, (dev, ino), true) && call_ensures(
                        identity,
                        (),
                        Some((dev, ino)),
                    )
                ||| exists|dev: u64, ino: u64| #[trigger]
                    call_ensures(fds_naming, (dev, ino), None) && call_ensures(
                        pool_names,
                        (dev, ino),
                        false,
                    ) && call_ensures(identity, (), Some((dev, ino)))
            },
        },
{
}

/// What is learned is what the two counts of the fds that name the probed file teach, over the
/// planes on that file.
pub proof fn what_is_learned_comes_from_the_probed_file<
    C: Fn(u64, u64) -> Option<usize>,
    V: FnOnce() -> Vec<Option<(u64, u64)>>,
>(
    backends: nat,
    probe: Probe,
    fds_naming: C,
    identities: V,
    learned: Option<u8>,
    settled: Option<u8>,
)
    requires
        backends > 0,
        charged(None, backends, Some(probe), fds_naming, identities, learned, settled),
    ensures
        ({
            ||| learned is None && call_ensures(fds_naming, (probe.dev, probe.ino), None)
            ||| exists|after: usize, planes: Vec<Option<(u64, u64)>>|
                {
                    &&& #[trigger] call_ensures(
                        fds_naming,
                        (probe.dev, probe.ino),
                        Some(after),
                    )
                    &&& #[trigger] call_ensures(identities, (), planes)
                    &&& learned == learned_from(
                        probe.before,
                        after,
                        planes@.filter(
                            |file: Option<(u64, u64)>| file == Some((probe.dev, probe.ino)),
                        ).len() as usize,
                        backends as usize,
                    )
                }
        }),
{
    if exists|planes: Vec<Option<(u64, u64)>>| call_ensures(identities, (), planes) {
        assert forall|planes: Vec<Option<(u64, u64)>>| #[trigger]
            call_ensures(identities, (), planes) implies planes_on_file(
            planes@,
            probe.dev,
            probe.ino,
        ) == planes@.filter(
            |file: Option<(u64, u64)>| file == Some((probe.dev, probe.ino)),
        ).len() by {
            planes_are_counted_by_their_file(planes@, probe.dev, probe.ino);
        }
    }
}

/// The planes that are counted are those on the file, each once.
pub proof fn planes_are_counted_by_their_file(
    planes: Seq<Option<(u64, u64)>>,
    dev: u64,
    ino: u64,
)
    ensures
        planes_on_file(planes, dev, ino) == planes.filter(
            |file: Option<(u64, u64)>| file == Some((dev, ino)),
        ).len(),
    decreases planes.len(),
{
    reveal(Seq::filter);
    if planes.len() > 0 {
        planes_are_counted_by_their_file(planes.drop_last(), dev, ino);
    }
}

/// The backends that copies are counted for are the GLES ones, each once.
pub proof fn only_gles_backends_are_counted(backends: Seq<RendererKind>)
    ensures
        gles_count(backends) == backends.filter(
            |kind: RendererKind| kind == RendererKind::Gles,
        ).len(),
    decreases backends.len(),
{
    reveal(Seq::filter);
    if backends.len() > 0 {
        only_gles_backends_are_counted(backends.drop_last());
    }
}

} // verus!
