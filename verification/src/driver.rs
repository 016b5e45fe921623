//! The pure part of the command-line driver: grouping numeric tokens into
//! triples of (diameter, diameter, height) and building the hull.
//!
//! The token count must be a multiple of three; the first token of each
//! triple that cannot be used as a number is reported by its index.

use vstd::prelude::*;

use crate::hull::Hull;
use crate::hull::HullSection;
use crate::parse::parse_number;
use crate::parse::token_den;
use crate::parse::token_fits;
use crate::parse::token_num;
use crate::parse::token_wf;
use crate::rat::lemma_rational_view_injective;

verus! {

/// Why a hull could not be built.
#[derive(Clone, Copy, Debug, PartialEq, Eq, Structural)]
pub enum BuildError {
    /// The number of tokens is not a multiple of three.
    WrongCount,
    /// The token at this index cannot be used as a number.
    BadToken { index: usize },
}

/// The argument count is acceptable: a multiple of three.
pub fn args_valid(count: usize) -> (r: bool)
    ensures
        r == (count % 3 == 0),
{
    count % 3 == 0
}

/// Token `t` can be used: well formed, its value fits in `i128`, and, for a
/// diameter (`halved`), so does the doubled denominator of its half.
pub open spec fn token_ok(t: Seq<u8>, halved: bool) -> bool {
    token_wf(t) && token_fits(t) && (halved ==> 2 * token_den(t) <= i128::MAX)
}

/// The token at index `i` can be used in its position: the first two of each
/// triple are diameters and get halved, the third is a height.
pub open spec fn token_ok_at(tokens: Seq<Vec<u8>>, i: int) -> bool {
    token_ok(tokens[i]@, i % 3 < 2)
}

/// Section `s` is the one described by the `k`-th token triple: radii are the
/// halved diameters, `d` is the height.
pub open spec fn section_matches(tokens: Seq<Vec<u8>>, k: int, s: HullSection) -> bool {
    s.r1@ == (token_num(tokens[3 * k]@), 2 * token_den(tokens[3 * k]@)) && s.r2@ == (
        token_num(tokens[3 * k + 1]@),
        2 * token_den(tokens[3 * k + 1]@),
    ) && s.d@ == (token_num(tokens[3 * k + 2]@), token_den(tokens[3 * k + 2]@))
}

/// What `build_hull` returns on `tokens`: `WrongCount` exactly when the count
/// is not a multiple of three; otherwise the index of the first unusable
/// token, or the hull whose `k`-th section is described by the `k`-th triple.
pub open spec fn build_post(tokens: Seq<Vec<u8>>, r: Result<Hull, BuildError>) -> bool {
    match r {
        Result::Err(BuildError::WrongCount) => tokens.len() % 3 != 0,
        Result::Err(BuildError::BadToken { index }) => tokens.len() % 3 == 0 && index
            < tokens.len() && !token_ok_at(tokens, index as int) && (forall|j: int|
            0 <= j < index ==> token_ok_at(tokens, j)),
        Result::Ok(h) => tokens.len() % 3 == 0 && (forall|j: int|
            0 <= j < tokens.len() ==> token_ok_at(tokens, j)) && h.wf() && h@.len() == tokens.len()
            / 3 && (forall|k: int| 0 <= k < h@.len() ==> section_matches(tokens, k, #[trigger] h@[k])),
    }
}

/// Build a hull from numeric tokens taken in consecutive triples
/// (diameter, diameter, height), keeping input order.
pub fn build_hull(tokens: &Vec<Vec<u8>>) -> (r: Result<Hull, BuildError>)
    ensures
        build_post(tokens@, r),
{
    let n = tokens.len();
    if n % 3 != 0 {
        return Err(BuildError::WrongCount);
    }
    let mut hull = Hull::new();
    let mut i: usize = 0;
    while i < n
        invariant
            i <= n,
            n == tokens@.len(),
            n % 3 == 0,
            i % 3 == 0,
            hull.wf(),
            hull@.len() == i / 3,
            forall|j: int| 0 <= j < i ==> token_ok_at(tokens@, j),
            forall|k: int| 0 <= k < hull@.len() ==> section_matches(tokens@, k, #[trigger] hull@[k]),
        decreases n - i,
    {
        let d1 = match parse_number(tokens[i].as_slice()) {
            Some(q) => q,
            None => {
                return Err(BuildError::BadToken { index: i });
            },
        };
        if d1.den() > i128::MAX / 2 {
            return Err(BuildError::BadToken { index: i });
        }
        let d2 = match parse_number(tokens[i + 1].as_slice()) {
            Some(q) => q,
            None => {
                return Err(BuildError::BadToken { index: i + 1 });
            },
        };
        if d2.den() > i128::MAX / 2 {
            return Err(BuildError::BadToken { index: i + 1 });
        }
        let h = match parse_number(tokens[i + 2].as_slice()) {
            Some(q) => q,
            None => {
                return Err(BuildError::BadToken { index: i + 2 });
            },
        };
        // Both diameter denominators were checked above, so halving cannot
        // fail; the branch is provably dead.
        let sec = match HullSection::from_diameters(&d1, &d2, &h) {
            Some(s) => s,
            None => {
                proof {
                    assert(false);
                }
                return Err(BuildError::BadToken { index: i });
            },
        };
        let ghost prev = hull@;
        hull.add(sec);
        proof {
            assert(3 * ((i as int) / 3) == i as int);
            assert(section_matches(tokens@, (i as int) / 3, sec));
            assert forall|k: int| 0 <= k < hull@.len() implies section_matches(
                tokens@,
                k,
                #[trigger] hull@[k],
            ) by {
                if k < hull@.len() - 1 {
                    assert(hull@[k] == prev[k]);
                }
            }
        }
        i = i + 3;
    }
    Ok(hull)
}

/// Building is deterministic: any two results that `build_hull`'s contract
/// allows for the same tokens are the same, error or hull alike.
pub proof fn lemma_build_deterministic(
    tokens: Seq<Vec<u8>>,
    r1: Result<Hull, BuildError>,
    r2: Result<Hull, BuildError>,
)
    requires
        build_post(tokens, r1),
        build_post(tokens, r2),
    ensures
        match (r1, r2) {
            (Result::Ok(h1), Result::Ok(h2)) => h1@ == h2@,
            (Result::Err(e1), Result::Err(e2)) => e1 == e2,
            _ => false,
        },
{
    match (r1, r2) {
        (Result::Ok(h1), Result::Ok(h2)) => {
            assert forall|k: int| 0 <= k < h1@.len() implies h1@[k] == h2@[k] by {
                assert(section_matches(tokens, k, h1@[k]));
                assert(section_matches(tokens, k, h2@[k]));
                lemma_rational_view_injective(h1@[k].r1, h2@[k].r1);
                lemma_rational_view_injective(h1@[k].r2, h2@[k].r2);
                lemma_rational_view_injective(h1@[k].d, h2@[k].d);
            }
            assert(h1@ =~= h2@);
        },
        (Result::Err(BuildError::BadToken { index: i1 }), Result::Err(BuildError::BadToken {
            index: i2,
        })) => {
            assert(i1 == i2) by {
                if i1 < i2 {
                    assert(token_ok_at(tokens, i1 as int));
                }
                if i2 < i1 {
                    assert(token_ok_at(tokens, i2 as int));
                }
            }
        },
        _ => {},
    }
}

} // verus!
