//! Baseline entries: the stable keys of known violations, and how a baseline filters a
//! report.

use vstd::prelude::*;

use crate::report::{Violation, ViolationView};
use crate::text::{append_str, owned};

verus! {

/// The stable key of a violation: its kind (`project_ref`, `package` or `source`), the
/// project or namespace it comes from, and what it refers to.
#[derive(Debug)]
pub struct BaselineEntry {
    pub kind: String,
    pub from: String,
    pub to: String,
}

/// The value of a baseline entry.
pub struct EntryView {
    pub kind: Seq<char>,
    pub from: Seq<char>,
    pub to: Seq<char>,
}

impl View for BaselineEntry {
    type V = EntryView;

    open spec fn view(&self) -> EntryView {
        EntryView { kind: self.kind@, from: self.from@, to: self.to@ }
    }
}

/// The values of a sequence of baseline entries.
pub open spec fn entry_views(s: Seq<BaselineEntry>) -> Seq<EntryView> {
    s.map_values(|e: BaselineEntry| e@)
}

impl BaselineEntry {
    /// An entry with the given fields.
    pub fn new(kind: &str, from: &str, to: &str) -> (r: BaselineEntry)
        ensures
            r@ == (EntryView { kind: kind@, from: from@, to: to@ }),
    {
        BaselineEntry { kind: owned(kind), from: owned(from), to: owned(to) }
    }

    /// A copy of this entry.
    pub fn duplicate(&self) -> (r: BaselineEntry)
        ensures
            r@ == self@,
    {
        BaselineEntry { kind: self.kind.clone(), from: self.from.clone(), to: self.to.clone() }
    }

    /// Whether the two entries have equal fields.
    pub fn same_as(&self, other: &BaselineEntry) -> (r: bool)
        ensures
            r == (self@ == other@),
    {
        self.kind == other.kind && self.from == other.from && self.to == other.to
    }
}

/// Whether `entries` holds an entry equal to `e`.
pub fn contains_entry(entries: &[BaselineEntry], e: &BaselineEntry) -> (r: bool)
    ensures
        r == entry_views(entries@).contains(e@),
{
    let mut i: usize = 0;
    while i < entries.len()
        invariant
            i <= entries@.len(),
            forall|k: int| 0 <= k < i ==> entries@[k]@ != e@,
        decreases entries@.len() - i,
    {
        if entries[i].same_as(e) {
            proof {
                assert(entry_views(entries@)[i as int] == e@);
            }
            return true;
        }
        i = i + 1;
    }
    proof {
        if entry_views(entries@).contains(e@) {
            let k = choose|k: int| 0 <= k < entries@.len() && entry_views(entries@)[k] == e@;
            assert(entries@[k]@ == e@);
        }
    }
    false
}

/// The warning for a baseline entry that no longer matches any violation.
pub open spec fn stale_message(e: EntryView) -> Seq<char> {
    "Stale baseline entry ("@ + e.kind + " "@ + e.from + " → "@ + e.to
        + ") — violation no longer exists"@
}

/// The warnings for the entries of `baseline` that are not among `keys`, in order.
pub open spec fn stale_warnings(baseline: Seq<EntryView>, keys: Seq<EntryView>) -> Seq<Seq<char>>
    decreases baseline.len(),
{
    if baseline.len() == 0 {
        seq![]
    } else {
        let prev = stale_warnings(baseline.drop_last(), keys);
        if keys.contains(baseline.last()) {
            prev
        } else {
            prev.push(stale_message(baseline.last()))
        }
    }
}

/// Of the first `n` pairs of `violations` and `keys`, those whose key is not in `baseline`,
/// as the violations and the keys that remain.
pub open spec fn kept_pairs(
    violations: Seq<ViolationView>,
    keys: Seq<EntryView>,
    baseline: Seq<EntryView>,
    n: nat,
) -> (Seq<ViolationView>, Seq<EntryView>)
    decreases n,
{
    if n == 0 {
        (seq![], seq![])
    } else {
        let prev = kept_pairs(violations, keys, baseline, (n - 1) as nat);
        if baseline.contains(keys[n - 1]) {
            prev
        } else {
            (prev.0.push(violations[n - 1]), prev.1.push(keys[n - 1]))
        }
    }
}

/// The number of violation/key pairs: the shorter length.
pub open spec fn pair_count(a: nat, b: nat) -> nat {
    if a <= b {
        a
    } else {
        b
    }
}

/// The warning for a stale baseline entry.
fn stale_warning(e: &BaselineEntry) -> (r: String)
    ensures
        r@ == stale_message(e@),
{
    let mut s = owned("Stale baseline entry (");
    append_str(&mut s, e.kind.as_str());
    append_str(&mut s, " ");
    append_str(&mut s, e.from.as_str());
    append_str(&mut s, " → ");
    append_str(&mut s, e.to.as_str());
    append_str(&mut s, ") — violation no longer exists");
    s
}

/// Removes the violations whose key is in `baseline`, pairing violations with keys in
/// order, and adds a warning for each baseline entry that no violation has any more.
pub fn apply_baseline(
    violations: Vec<Violation>,
    violation_keys: Vec<BaselineEntry>,
    baseline: &[BaselineEntry],
    warnings: &mut Vec<String>,
) -> (r: (Vec<Violation>, Vec<BaselineEntry>))
    ensures
        final(warnings)@.map_values(|w: String| w@) == old(warnings)@.map_values(|w: String| w@)
            + stale_warnings(entry_views(baseline@), entry_views(violation_keys@)),
        (r.0@.map_values(|v: Violation| v@), entry_views(r.1@)) == kept_pairs(
            violations@.map_values(|v: Violation| v@),
            entry_views(violation_keys@),
            entry_views(baseline@),
            pair_count(violations@.len(), violation_keys@.len()),
        ),
{
    let ghost old_w = warnings@.map_values(|w: String| w@);
    let ghost keys = entry_views(violation_keys@);
    let ghost base = entry_views(baseline@);
    let mut i: usize = 0;
    while i < baseline.len()
        invariant
            i <= baseline@.len(),
            base == entry_views(baseline@),
            keys == entry_views(violation_keys@),
            warnings@.map_values(|w: String| w@) == old_w + stale_warnings(
                base.take(i as int),
                keys,
            ),
        decreases baseline@.len() - i,
    {
        let found = contains_entry(violation_keys.as_slice(), &baseline[i]);
        proof {
            assert(base.take(i + 1).drop_last() =~= base.take(i as int));
            assert(base.take(i + 1).last() == baseline@[i as int]@);
        }
        if !found {
            let w = stale_warning(&baseline[i]);
            let ghost before = warnings@;
            warnings.push(w);
            proof {
                assert(stale_warnings(base.take(i + 1), keys) == stale_warnings(
                    base.take(i as int),
                    keys,
                ).push(stale_message(baseline@[i as int]@)));
                assert(warnings@.map_values(|w: String| w@) =~= before.map_values(
                    |w: String| w@,
                ).push(w@));
                assert(warnings@.map_values(|w: String| w@) =~= old_w + stale_warnings(
                    base.take(i + 1),
                    keys,
                ));
            }
        } else {
            proof {
                assert(warnings@.map_values(|w: String| w@) =~= old_w + stale_warnings(
                    base.take(i + 1),
                    keys,
                ));
            }
        }
        i = i + 1;
    }
    proof {
        assert(base.take(baseline@.len() as int) =~= base);
    }
    let ghost vs0 = violations@.map_values(|v: Violation| v@);
    let n = if violations.len() <= violation_keys.len() {
        violations.len()
    } else {
        violation_keys.len()
    };
    let mut vs = violations;
    let mut ks = violation_keys;
    let mut out_v: Vec<Violation> = Vec::new();
    let mut out_k: Vec<BaselineEntry> = Vec::new();
    let mut j: usize = 0;
    while j < n
        invariant
            j <= n,
            n == pair_count(vs0.len(), keys.len()),
            base == entry_views(baseline@),
            vs@.len() == vs0.len() - j,
            ks@.len() == keys.len() - j,
            forall|k: int| 0 <= k < vs@.len() ==> vs@[k]@ == vs0[k + j],
            forall|k: int| 0 <= k < ks@.len() ==> ks@[k]@ == keys[k + j],
            (out_v@.map_values(|v: Violation| v@), entry_views(out_k@)) == kept_pairs(
                vs0,
                keys,
                base,
                j as nat,
            ),
        decreases n - j,
    {
        let v = vs.remove(0);
        let k = ks.remove(0);
        let hit = contains_entry(baseline, &k);
        let ghost prev = kept_pairs(vs0, keys, base, j as nat);
        if !hit {
            out_v.push(v);
            out_k.push(k);
            proof {
                assert(out_v@.map_values(|v: Violation| v@) =~= prev.0.push(vs0[j as int]));
                assert(entry_views(out_k@) =~= prev.1.push(keys[j as int]));
            }
        }
        j = j + 1;
    }
    (out_v, out_k)
}

} // verus!
