//! The comparison of a fresh scan against a stored baseline.

use vstd::prelude::*;
use vstd::string::StringExecFns;

use crate::data::{json_string_map, keys_unique, lemma_map_of_key, map_of, BaselineError, Database};

verus! {

/// Paths present in both mappings with equal digests, with that digest.
pub open spec fn matches_of(baseline: Map<Seq<char>, Seq<char>>, current: Map<Seq<char>, Seq<char>>) -> Map<
    Seq<char>,
    Seq<char>,
> {
    Map::new(
        |p: Seq<char>|
            current.contains_key(p) && baseline.contains_key(p) && current[p] == baseline[p],
        |p: Seq<char>| current[p],
    )
}

/// Paths present in both mappings with different digests, with the current digest.
pub open spec fn changed_of(baseline: Map<Seq<char>, Seq<char>>, current: Map<Seq<char>, Seq<char>>) -> Map<
    Seq<char>,
    Seq<char>,
> {
    Map::new(
        |p: Seq<char>|
            current.contains_key(p) && baseline.contains_key(p) && current[p] != baseline[p],
        |p: Seq<char>| current[p],
    )
}

/// Paths of the baseline that the current mapping lacks.
pub open spec fn missing_of(baseline: Map<Seq<char>, Seq<char>>, current: Map<Seq<char>, Seq<char>>) -> Set<
    Seq<char>,
> {
    baseline.dom().difference(current.dom())
}

/// `v` lists the members of `s`, each once.
pub open spec fn lists_set(v: Seq<String>, s: Set<Seq<char>>) -> bool {
    &&& forall|i: int| 0 <= i < v.len() ==> s.contains(#[trigger] v[i]@)
    &&& forall|p: Seq<char>| s.contains(p) ==> exists|i: int| 0 <= i < v.len() && #[trigger] v[i]@ == p
    &&& forall|i: int, j: int| 0 <= i < j < v.len() ==> (#[trigger] v[i])@ != (#[trigger] v[j])@
}

/// The comparison of a scan against a baseline.
#[derive(Debug)]
pub struct Report {
    /// Paths whose digest equals the baseline's.
    pub matches: Database,
    /// Paths whose digest differs from the baseline's, with the new digest.
    pub changed: Database,
    /// Paths of the baseline that the scan did not fingerprint.
    pub missing: Vec<String>,
    /// Paths that could not be fingerprinted, with the reason.
    pub errors: Database,
}

proof fn lemma_take_unique(s: Seq<(String, String)>, i: int)
    requires
        keys_unique(s),
        0 <= i < s.len(),
    ensures
        keys_unique(s.take(i)),
        keys_unique(s.take(i + 1)),
        !map_of(s.take(i)).contains_key(s[i].0@),
        map_of(s.take(i + 1)) == map_of(s.take(i)).insert(s[i].0@, s[i].1@),
{
    assert(s.take(i + 1).drop_last() =~= s.take(i));
    if map_of(s.take(i)).contains_key(s[i].0@) {
        lemma_map_of_key(s.take(i), s[i].0@);
        let j = choose|j: int| 0 <= j < s.take(i).len() && (#[trigger] s.take(i)[j]).0@ == s[i].0@;
        assert(s[j] == s.take(i)[j]);
    }
}

/// Compares the digests of a scan with a baseline. Paths new to the scan are
/// in neither `matches` nor `changed`; errors pass through unchanged.
pub fn compare(baseline: &Database, hashes: &Database, errors: Database) -> (r: Report)
    requires
        baseline.wf(),
        hashes.wf(),
        errors.wf(),
    ensures
        r.matches.wf(),
        r.changed.wf(),
        r.errors.wf(),
        r.matches@ == matches_of(baseline@, hashes@),
        r.changed@ == changed_of(baseline@, hashes@),
        lists_set(r.missing@, missing_of(baseline@, hashes@)),
        r.errors@ == errors@,
{
    let current = hashes.entries();
    let mut matches = Database::new();
    let mut changed = Database::new();
    let mut i: usize = 0;
    assert(current@.take(0) =~= Seq::<(String, String)>::empty());
    while i < current.len()
        invariant
            i <= current@.len(),
            keys_unique(current@),
            map_of(current@) == hashes@,
            baseline.wf(),
            matches.wf(),
            changed.wf(),
            matches@ == matches_of(baseline@, map_of(current@.take(i as int))),
            changed@ == changed_of(baseline@, map_of(current@.take(i as int))),
        decreases current@.len() - i,
    {
        let ghost before = map_of(current@.take(i as int));
        proof {
            lemma_take_unique(current@, i as int);
        }
        let path = &current[i].0;
        let digest = &current[i].1;
        match baseline.get(path) {
            Some(known) => {
                if *digest == *known {
                    matches.insert(path.clone(), digest.clone());
                } else {
                    changed.insert(path.clone(), digest.clone());
                }
            },
            None => {},
        }
        proof {
            let after = map_of(current@.take(i + 1));
            assert(matches@ =~= matches_of(baseline@, after));
            assert(changed@ =~= changed_of(baseline@, after));
        }
        i = i + 1;
    }
    assert(current@.take(i as int) =~= current@);
    let known = baseline.entries();
    let mut missing: Vec<String> = Vec::new();
    let mut j: usize = 0;
    while j < known.len()
        invariant
            j <= known@.len(),
            keys_unique(known@),
            map_of(known@) == baseline@,
            hashes.wf(),
            lists_set(
                missing@,
                Set::new(
                    |p: Seq<char>|
                        map_of(known@.take(j as int)).contains_key(p) && !hashes@.contains_key(p),
                ),
            ),
        decreases known@.len() - j,
    {
        proof {
            lemma_take_unique(known@, j as int);
        }
        let ghost old_missing = missing@;
        let ghost old_set = Set::new(
            |p: Seq<char>|
                map_of(known@.take(j as int)).contains_key(p) && !hashes@.contains_key(p),
        );
        let ghost before = map_of(known@.take(j as int));
        let ghost after = map_of(known@.take(j + 1));
        let path = &known[j].0;
        if !hashes.contains_key(path) {
            missing.push(path.clone());
            proof {
                assert forall|a: int, b: int| 0 <= a < b < missing@.len() implies (
                #[trigger] missing@[a])@ != (#[trigger] missing@[b])@ by {
                    if b == missing@.len() - 1 {
                        assert(before.contains_key(missing@[a]@));
                    } else {
                        assert(old_missing[a] == missing@[a]);
                        assert(old_missing[b] == missing@[b]);
                    }
                }
                assert forall|p: Seq<char>|
                    after.contains_key(p) && !hashes@.contains_key(p) implies exists|k: int|
                    0 <= k < missing@.len() && #[trigger] missing@[k]@ == p by {
                    if p == known@[j as int].0@ {
                        assert(missing@[missing@.len() - 1]@ == p);
                    } else {
                        assert(before.contains_key(p));
                        assert(old_set.contains(p));
                        let k = choose|k: int| 0 <= k < old_missing.len() && #[trigger] old_missing[k]@ == p;
                        assert(missing@[k] == old_missing[k]);
                    }
                }
                assert forall|k: int| 0 <= k < missing@.len() implies (after.contains_key(
                    #[trigger] missing@[k]@,
                ) && !hashes@.contains_key(missing@[k]@)) by {
                    if k < old_missing.len() {
                        assert(missing@[k] == old_missing[k]);
                    }
                }
            }
        } else {
            proof {
                assert forall|p: Seq<char>|
                    after.contains_key(p) && !hashes@.contains_key(p) implies exists|k: int|
                    0 <= k < missing@.len() && #[trigger] missing@[k]@ == p by {
                    assert(before.contains_key(p));
                    assert(old_set.contains(p));
                }
            }
        }
        proof {
            assert(Set::new(
                |p: Seq<char>| after.contains_key(p) && !hashes@.contains_key(p),
            ) =~= Set::new(
                |p: Seq<char>|
                    map_of(known@.take(j + 1)).contains_key(p) && !hashes@.contains_key(p),
            ));
        }
        j = j + 1;
    }
    proof {
        assert(known@.take(j as int) =~= known@);
        assert(Set::new(
            |p: Seq<char>| map_of(known@.take(j as int)).contains_key(p) && !hashes@.contains_key(p),
        ) =~= missing_of(baseline@, hashes@));
    }
    Report { matches, changed, missing, errors }
}

/// Reads the baseline from its JSON text and compares the scan with it. A
/// baseline that is not a JSON object of strings is an error.
pub fn compute_report(baseline_json: &str, hashes: &Database, errors: Database) -> (r: Result<
    Report,
    BaselineError,
>)
    requires
        hashes.wf(),
        errors.wf(),
    ensures
        r is Ok <==> json_baseline_ok(baseline_json@),
        r is Ok ==> ({
            let baseline = json_string_map(baseline_json@)->0;
            let report = r->Ok_0;
            &&& report.matches@ == matches_of(baseline, hashes@)
            &&& report.changed@ == changed_of(baseline, hashes@)
            &&& lists_set(report.missing@, missing_of(baseline, hashes@))
            &&& report.errors@ == errors@
        }),
{
    let baseline = Database::from_json(baseline_json)?;
    Ok(compare(&baseline, hashes, errors))
}

/// The text holds a JSON object whose values are all strings.
pub open spec fn json_baseline_ok(text: Seq<char>) -> bool {
    json_string_map(text) is Some
}

/// Where a report written at `timestamp` (`YYYYMMDDHHMMSS`) goes:
/// `<report_dir>/ets_report_<timestamp>.json`.
pub fn report_path(report_dir: &str, timestamp: &str) -> (r: String)
    ensures
        r@ == report_dir@ + "/ets_report_"@ + timestamp@ + ".json"@,
{
    let mut r = String::from_str(report_dir);
    r.append("/ets_report_");
    r.append(timestamp);
    r.append(".json");
    r
}

} // verus!
