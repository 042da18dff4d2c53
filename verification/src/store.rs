use vstd::prelude::*;
use vstd::string::StringExecFns;
use crate::codec::{encode_spec, decode_project, lemma_encode_injective};
use crate::error::AppError;
use crate::project::{Project, ProjectV};

verus! {

/// A byte sequence that holds the canonical record of some well-formed
/// project value.
pub open spec fn spec_decodable(b: Seq<u8>) -> bool {
    exists|pv: ProjectV| #[trigger] encode_spec(pv) == b && pv.wf()
}

/// The project value whose canonical record a decodable byte sequence
/// holds. (`decode_project` returns a project equal to every such value,
/// so the record pins it.)
pub open spec fn spec_decoded(b: Seq<u8>) -> ProjectV {
    choose|pv: ProjectV| #[trigger] encode_spec(pv) == b && pv.wf()
}

/// The outcome of loading a project whose `project.json` content is
/// `content` (`None` when the file does not exist): an absent record is an
/// empty result, never an error; a present record is parsed, and a
/// malformed one is a database error.
pub fn load_project_from_content(content: Option<Vec<u8>>) -> (r: Result<
    Option<Project>,
    AppError,
>)
    ensures
        (match content {
            None => r matches Ok(op) && op is None,
            Some(b) => if spec_decodable(b@) {
                r matches Ok(op) && op matches Some(p) && p@ == spec_decoded(b@) && p@.wf()
            } else {
                r matches Err(e) && e matches AppError::Database(m) && m@
                    == "Failed to parse project: not a canonical project record"@
            },
        }),
{
    match content {
        None => Ok(None),
        Some(b) => {
            match decode_project(&b) {
                Some(p) => {
                    proof {
                        assert(encode_spec(p@) == b@ && p@.wf());
                        assert(spec_decodable(b@));
                        let qv = spec_decoded(b@);
                        assert(encode_spec(qv) == b@ && qv.wf());
                        assert(p@ == qv);
                    }
                    Ok(Some(p))
                },
                None => {
                    proof {
                        if spec_decodable(b@) {
                            let qv = spec_decoded(b@);
                            assert(encode_spec(qv) == b@ && qv.wf());
                            assert(false);
                        }
                    }
                    Err(
                        AppError::Database(
                            String::from_str(
                                "Failed to parse project: not a canonical project record",
                            ),
                        ),
                    )
                },
            }
        },
    }
}

/// The projects that a directory listing yields: one per entry whose
/// content is a decodable record, in the order the entries come; entries
/// without a readable `project.json` and entries whose record is malformed
/// are skipped.
pub open spec fn decoded_list(cs: Seq<Option<Vec<u8>>>) -> Seq<ProjectV>
    decreases cs.len(),
{
    if cs.len() == 0 {
        Seq::empty()
    } else {
        (match cs[0] {
            Some(b) => if spec_decodable(b@) {
                seq![spec_decoded(b@)]
            } else {
                Seq::empty()
            },
            None => Seq::empty(),
        }) + decoded_list(cs.drop_first())
    }
}

pub proof fn lemma_decoded_list_append(a: Seq<Option<Vec<u8>>>, b: Seq<Option<Vec<u8>>>)
    ensures
        decoded_list(a + b) == decoded_list(a) + decoded_list(b),
    decreases a.len(),
{
    if a.len() == 0 {
        assert(a + b =~= b);
        assert(decoded_list(a) + decoded_list(b) =~= decoded_list(b));
    } else {
        assert((a + b).drop_first() =~= a.drop_first() + b);
        assert((a + b)[0] == a[0]);
        assert((a + b).len() != 0);
        lemma_decoded_list_append(a.drop_first(), b);
        assert(decoded_list(a + b) =~= decoded_list(a) + decoded_list(b));
    }
}

/// The compute part of listing projects: the caller enumerates the project
/// directories and reads each entry's `project.json` (handing `None` where
/// the file is missing or unreadable); this returns the projects of the
/// decodable records, in order, silently skipping the rest.
#[verifier::rlimit(60)]
pub fn list_projects_from_contents(contents: &Vec<Option<Vec<u8>>>) -> (r: Vec<Project>)
    ensures
        r@.map_values(|p: Project| p@) == decoded_list(contents@),
        contents@.len() == 0 ==> r@.len() == 0,
{
    let n = contents.len();
    let mut r: Vec<Project> = Vec::new();
    let mut i: usize = 0;
    while i < n
        invariant
            n == contents@.len(),
            i <= n,
            r@.map_values(|p: Project| p@) == decoded_list(contents@.take(i as int)),
        decreases n - i,
    {
        let ghost prefix = contents@.take(i as int);
        match &contents[i] {
            None => {
                proof {
                    assert(contents@.take(i + 1) =~= prefix + seq![contents@[i as int]]);
                    lemma_decoded_list_append(prefix, seq![contents@[i as int]]);
                    assert(seq![contents@[i as int]].drop_first() =~= Seq::<
                        Option<Vec<u8>>,
                    >::empty());
                    assert(decoded_list(Seq::<Option<Vec<u8>>>::empty()) == Seq::<
                        ProjectV,
                    >::empty());
                    assert(seq![contents@[i as int]].len() == 1);
                    assert(contents@[i as int] is None);
                    assert(decoded_list(seq![contents@[i as int]]) =~= Seq::<ProjectV>::empty());
                    assert(r@.map_values(|p: Project| p@) =~= decoded_list(
                        contents@.take(i + 1),
                    ));
                }
            },
            Some(b) => {
                let ghost bb = b@;
                match decode_project(b) {
                    Some(p) => {
                        let ghost rv0 = r@;
                        r.push(p);
                        proof {
                            assert(encode_spec(p@) == bb && p@.wf());
                            assert(spec_decodable(bb));
                            let qv = spec_decoded(bb);
                            assert(encode_spec(qv) == bb && qv.wf());
                            assert(p@ == qv);
                            assert(contents@.take(i + 1) =~= prefix + seq![contents@[i as int]]);
                            lemma_decoded_list_append(prefix, seq![contents@[i as int]]);
                            assert(seq![contents@[i as int]].drop_first() =~= Seq::<
                                Option<Vec<u8>>,
                            >::empty());
                            assert(decoded_list(Seq::<Option<Vec<u8>>>::empty()) == Seq::<
                                ProjectV,
                            >::empty());
                            assert(seq![contents@[i as int]].len() == 1);
                            assert(contents@[i as int] matches Some(y) && y@ == bb);
                            assert(decoded_list(seq![contents@[i as int]]) =~= seq![
                                spec_decoded(bb),
                            ]);
                            assert(r@.map_values(|p: Project| p@) =~= rv0.map_values(
                                |p: Project| p@,
                            ).push(p@));
                            assert(r@.map_values(|p: Project| p@) =~= decoded_list(
                                contents@.take(i + 1),
                            ));
                        }
                    },
                    None => {
                        proof {
                            if spec_decodable(bb) {
                                let qv = spec_decoded(bb);
                                assert(encode_spec(qv) == bb && qv.wf());
                                assert(false);
                            }
                            assert(contents@.take(i + 1) =~= prefix + seq![contents@[i as int]]);
                            lemma_decoded_list_append(prefix, seq![contents@[i as int]]);
                            assert(seq![contents@[i as int]].drop_first() =~= Seq::<
                                Option<Vec<u8>>,
                            >::empty());
                            assert(decoded_list(Seq::<Option<Vec<u8>>>::empty()) == Seq::<
                                ProjectV,
                            >::empty());
                            assert(seq![contents@[i as int]].len() == 1);
                            assert(contents@[i as int] matches Some(y) && y@ == bb);
                            assert(decoded_list(seq![contents@[i as int]]) =~= Seq::<
                                ProjectV,
                            >::empty());
                            assert(r@.map_values(|p: Project| p@) =~= decoded_list(
                                contents@.take(i + 1),
                            ));
                        }
                    },
                }
            },
        }
        i = i + 1;
    }
    proof {
        assert(contents@.take(n as int) =~= contents@);
    }
    r
}

/// Listing an empty projects root yields the empty sequence.
pub proof fn lemma_list_empty()
    ensures
        decoded_list(Seq::<Option<Vec<u8>>>::empty()) == Seq::<ProjectV>::empty(),
{
}

/// Listing contents in which exactly the decodable entries are the
/// canonical records of well-formed values yields one project per such
/// record, in order: entries that are missing or malformed are dropped and
/// the rest are all kept.
pub proof fn lemma_list_counts(cs: Seq<Option<Vec<u8>>>)
    ensures
        decoded_list(cs).len() <= cs.len(),
        (forall|j: int|
            #![trigger cs[j]]
            0 <= j < cs.len() ==> (cs[j] matches Some(b) && spec_decodable(b@))) ==> decoded_list(
            cs,
        ).len() == cs.len(),
    decreases cs.len(),
{
    if cs.len() != 0 {
        lemma_list_counts(cs.drop_first());
        assert(cs.drop_first().len() == cs.len() - 1);
        if forall|j: int| #![trigger cs[j]] 0 <= j < cs.len() ==> (cs[j] matches Some(b)
            && spec_decodable(b@)) {
            assert(cs[0] matches Some(b) && spec_decodable(b@));
            assert(forall|j: int|
                0 <= j < cs.drop_first().len() ==> #[trigger] cs.drop_first()[j] == cs[j + 1]);
        }
    }
}

/// Round trip of the persisted record: saving a well-formed project value
/// and reading its bytes back yields the same value. The record both
/// decodes and decodes to what was written.
pub proof fn lemma_record_round_trip(pv: ProjectV)
    requires
        pv.wf(),
    ensures
        spec_decodable(encode_spec(pv)),
        spec_decoded(encode_spec(pv)) == pv,
{
    assert(spec_decodable(encode_spec(pv)));
    let qv = spec_decoded(encode_spec(pv));
    assert(encode_spec(qv) == encode_spec(pv) && qv.wf());
    lemma_encode_injective(qv, pv);
}

/// Listing after saves: when every entry holds the canonical record of a
/// well-formed project value, the listing yields exactly those values, in
/// order — as many projects as saves, none lost, none invented.
#[verifier::rlimit(80)]
pub proof fn lemma_list_after_saves(cs: Seq<Option<Vec<u8>>>, ps: Seq<ProjectV>)
    requires
        cs.len() == ps.len(),
        forall|j: int|
            #![trigger cs[j]]
            0 <= j < cs.len() ==> (cs[j] matches Some(b) && #[trigger] ps[j].wf() && b@
                == encode_spec(ps[j])),
    ensures
        decoded_list(cs) == ps,
    decreases cs.len(),
{
    if cs.len() == 0 {
        assert(decoded_list(cs) =~= ps);
    } else {
        assert(cs[0] matches Some(b) && ps[0].wf() && b@ == encode_spec(ps[0]));
        match cs[0] {
            Some(b) => {
                lemma_record_round_trip(ps[0]);
                assert(spec_decodable(b@));
                assert(spec_decoded(b@) == ps[0]);
                assert(forall|j: int|
                    0 <= j < cs.drop_first().len() ==> #[trigger] cs.drop_first()[j] == cs[j + 1]);
                assert(forall|j: int|
                    0 <= j < ps.drop_first().len() ==> #[trigger] ps.drop_first()[j] == ps[j + 1]);
                lemma_list_after_saves(cs.drop_first(), ps.drop_first());
                assert(decoded_list(cs) == seq![spec_decoded(b@)] + decoded_list(cs.drop_first()));
                assert(seq![ps[0]] + ps.drop_first() =~= ps);
                assert(decoded_list(cs) == ps);
            },
            None => {
                assert(false);
            },
        }
    }
}

/// A malformed or missing entry is omitted, not fatal: dropping it from
/// the contents leaves the listing unchanged.
pub proof fn lemma_list_skips_bad(cs: Seq<Option<Vec<u8>>>, k: int)
    requires
        0 <= k < cs.len(),
        !(cs[k] matches Some(b) && spec_decodable(b@)),
    ensures
        decoded_list(cs) == decoded_list(cs.remove(k)),
    decreases cs.len(),
{
    if k == 0 {
        assert(cs.remove(0) =~= cs.drop_first());
        assert(decoded_list(cs) =~= decoded_list(cs.drop_first()));
    } else {
        lemma_list_skips_bad(cs.drop_first(), k - 1);
        assert(cs.remove(k).drop_first() =~= cs.drop_first().remove(k - 1));
        assert(cs.remove(k)[0] == cs[0]);
        assert(cs.remove(k).len() != 0);
        assert(decoded_list(cs) =~= decoded_list(cs.remove(k)));
    }
}

} // verus!
