//! The layout of the output: schema versions, partitions, and the fixed
//! files written beside the shards.
use vstd::prelude::*;
use crate::cli::Config;
use crate::fragment::{to_fragment, to_fragment_spec};
use crate::merge::{fragments_of_shard, ShardGroup};
use crate::model::{EntryFragment, RawEntry, SpecEntryFragment};
use crate::text::{
    all_decimal_digits, chars_of, decimal_spec, decimal_u64, decimal_value, hex_spec,
    lemma_decimal_spec_value, push_digits, push_padded_digits, zero_padded,
};

verus! {

/// The schema version of the shards this generator writes.
pub const SCHEMA_VERSION: u32 = 2;

/// The most partitions the input is spread over before shards are assembled.
pub const PARTITION_LIMIT: usize = 256;

/// How many schema versions stay deployed.
pub const RETAINED_SCHEMA_VERSIONS: usize = 2;

/// The file that marks a schema directory as generated by this tool.
pub const OUTPUT_MARKER: &'static str = ".dictionary-data-output";

/// The file that marks an output root as managed by this tool.
pub const ROOT_MARKER: &'static str = ".dictionary-data-root";

/// The text of both markers.
pub const MARKER_TEXT: &'static str = "generated by doubleclick-dictionary-data\n";

/// Where the dictionary data comes from, as stated in the metadata.
pub const SOURCE_NAME: &'static str = "Wiktionary via Wiktextract";

/// The license of the generated data.
pub const LICENSE_NAME: &'static str = "CC BY-SA 4.0";

pub const LICENSE_URL: &'static str = "https://creativecommons.org/licenses/by-sa/4.0/";

pub const ATTRIBUTION_URL: &'static str = "https://en.wiktionary.org/";

/// How the generated data differs from its source.
pub const MODIFICATION_NOTICE: &'static str = "Wiktextract parsed the source; this generator selected, combined, normalized, and truncated fields for dictionary lookup.";

/// What one build produced.
pub struct BuildStats {
    pub entries: usize,
    pub shards: usize,
    pub accepted_records: usize,
    pub skipped_records: usize,
}

/// The number of dictionary entries over all groups.
pub open spec fn groups_total(groups: Seq<ShardGroup>) -> nat
    decreases groups.len(),
{
    if groups.len() == 0 {
        0
    } else {
        groups_total(groups.drop_last()) + groups.last().entries.total()
    }
}

proof fn lemma_groups_total_prefix(groups: Seq<ShardGroup>, n: int)
    requires
        0 <= n <= groups.len(),
    ensures
        groups_total(groups.take(n)) <= groups_total(groups),
    decreases groups.len(),
{
    if n < groups.len() {
        assert(groups.drop_last().take(n) =~= groups.take(n));
        lemma_groups_total_prefix(groups.drop_last(), n);
    } else {
        assert(groups.take(n) =~= groups);
    }
}

/// Adds to the statistics the shards that `groups` write and the entries
/// they hold. Returns `false`, and changes nothing, when a count would not
/// fit in a `usize`.
pub fn count_groups(stats: &mut BuildStats, groups: &Vec<ShardGroup>) -> (r: bool)
    ensures
        r == (old(stats).shards + groups@.len() <= usize::MAX && old(stats).entries
            + groups_total(groups@) <= usize::MAX),
        r ==> final(stats).shards == old(stats).shards + groups@.len(),
        r ==> final(stats).entries == old(stats).entries + groups_total(groups@),
        !r ==> final(stats).shards == old(stats).shards,
        !r ==> final(stats).entries == old(stats).entries,
        final(stats).accepted_records == old(stats).accepted_records,
        final(stats).skipped_records == old(stats).skipped_records,
{
    let mut added: usize = 0;
    let mut a: usize = 0;
    let mut fits = true;
    while a < groups.len() && fits
        invariant
            a <= groups@.len(),
            fits ==> added == groups_total(groups@.take(a as int)),
            !fits ==> groups_total(groups@) > usize::MAX,
        decreases groups@.len() - a, if fits { 1int } else { 0int },
    {
        assert(groups@.take(a + 1).drop_last() =~= groups@.take(a as int));
        match groups[a].entries.checked_entry_count() {
            Some(n) => match added.checked_add(n) {
                Some(next) => {
                    added = next;
                    a += 1;
                },
                None => {
                    proof {
                        lemma_groups_total_prefix(groups@, a + 1);
                    }
                    fits = false;
                },
            },
            None => {
                proof {
                    lemma_groups_total_prefix(groups@, a + 1);
                }
                fits = false;
            },
        }
    }
    if !fits {
        return false;
    }
    assert(groups@.take(a as int) =~= groups@);
    let shards = match stats.shards.checked_add(groups.len()) {
        Some(n) => n,
        None => return false,
    };
    let entries = match stats.entries.checked_add(added) {
        Some(n) => n,
        None => return false,
    };
    stats.shards = shards;
    stats.entries = entries;
    true
}

/// The number of partitions: the shard count, but at most `PARTITION_LIMIT`.
pub fn partition_count(shard_count: usize) -> (r: usize)
    ensures
        r == (if shard_count < PARTITION_LIMIT {
            shard_count
        } else {
            PARTITION_LIMIT
        }),
{
    if shard_count < PARTITION_LIMIT {
        shard_count
    } else {
        PARTITION_LIMIT
    }
}

/// Reads one input record: a record that gives no fragment is counted as
/// skipped; otherwise it is counted as accepted, and its fragment is
/// returned with the partition it goes to (its shard modulo the number of
/// partitions).
pub fn route_record(raw: RawEntry, config: &Config, partitions: usize, stats: &mut BuildStats) -> (r:
    Option<(usize, EntryFragment)>)
    requires
        config.shard_count > 0,
        partitions > 0,
        old(stats).accepted_records < usize::MAX,
        old(stats).skipped_records < usize::MAX,
    ensures
        final(stats).entries == old(stats).entries,
        final(stats).shards == old(stats).shards,
        match to_fragment_spec(raw@, config.language_codes(), config.shard_count) {
            None => {
                &&& r is None
                &&& final(stats).skipped_records == old(stats).skipped_records + 1
                &&& final(stats).accepted_records == old(stats).accepted_records
            },
            Some(f) => {
                &&& r matches Some((p, fragment)) && fragment@ == f && p == f.shard % partitions
                &&& final(stats).accepted_records == old(stats).accepted_records + 1
                &&& final(stats).skipped_records == old(stats).skipped_records
            },
        },
{
    match to_fragment(raw, config) {
        None => {
            stats.skipped_records = stats.skipped_records + 1;
            None
        },
        Some(fragment) => {
            stats.accepted_records = stats.accepted_records + 1;
            let partition = fragment.shard % partitions;
            Some((partition, fragment))
        },
    }
}

/// The fragments that go to one partition, in their order.
pub open spec fn partition_fragments(
    fragments: Seq<SpecEntryFragment>,
    partitions: usize,
    partition: usize,
) -> Seq<SpecEntryFragment> {
    fragments.filter(|f: SpecEntryFragment| f.shard % partitions == partition)
}

/// Spreading fragments over partitions keeps every fragment of a shard, in
/// order, in the shard's partition: a shard assembled from its partition is
/// the one assembled from all fragments, whatever the number of partitions.
pub proof fn lemma_partition_keeps_shard_fragments(
    fragments: Seq<SpecEntryFragment>,
    partitions: usize,
    shard: usize,
)
    requires
        partitions > 0,
    ensures
        fragments_of_shard(partition_fragments(fragments, partitions, shard % partitions), shard)
            == fragments_of_shard(fragments, shard),
    decreases fragments.len(),
{
    reveal(Seq::filter);
    if fragments.len() > 0 {
        lemma_partition_keeps_shard_fragments(fragments.drop_last(), partitions, shard);
        let in_partition = partition_fragments(fragments.drop_last(), partitions, shard % partitions);
        let last = fragments.last();
        if last.shard % partitions == shard % partitions {
            assert(partition_fragments(fragments, partitions, shard % partitions) == in_partition.push(last));
            assert(in_partition.push(last).drop_last() =~= in_partition);
        } else {
            assert(last.shard != shard);
        }
    }
}

/// The version a directory name stands for: `v` followed by one or more
/// ASCII digits whose value fits in a `u32`.
pub open spec fn schema_version_spec(name: Seq<char>) -> Option<u32> {
    let digits = name.drop_first();
    if name.len() > 1 && name[0] == 'v' && all_decimal_digits(digits) && decimal_value(digits)
        <= u32::MAX {
        Some(decimal_value(digits) as u32)
    } else {
        None
    }
}

/// The schema version named by a directory name such as `v2`.
pub fn schema_version(name: &str) -> (r: Option<u32>)
    ensures
        r == schema_version_spec(name@),
{
    let chars = chars_of(name);
    if chars.len() < 2 || chars[0] != 'v' {
        return None;
    }
    let mut digits: Vec<char> = Vec::new();
    let mut i: usize = 1;
    while i < chars.len()
        invariant
            1 <= i <= chars@.len(),
            chars@ == name@,
            digits@ == chars@.subrange(1, i as int),
            all_decimal_digits(digits@),
        decreases chars@.len() - i,
    {
        let c = chars[i];
        if !('0' <= c && c <= '9') {
            assert(name@.drop_first()[i - 1] == c);
            return None;
        }
        digits.push(c);
        i += 1;
        assert(digits@ =~= chars@.subrange(1, i as int));
    }
    assert(digits@ =~= name@.drop_first());
    match decimal_u64(&digits) {
        Some(v) => {
            if v <= u32::MAX as u64 {
                Some(v as u32)
            } else {
                None
            }
        },
        None => None,
    }
}

/// The directory of a schema version: `v` and the version in decimal.
pub open spec fn version_directory_spec(version: u32) -> Seq<char> {
    "v"@ + decimal_spec(version as nat)
}

/// The name of the directory that holds schema `version`, such as `v2`.
pub fn version_directory(version: u32) -> (r: String)
    ensures
        r@ == version_directory_spec(version),
{
    let mut r = "v".to_owned();
    push_digits(&mut r, version as u64, 10);
    r
}

/// Reading the name of a version's directory gives the version back.
pub proof fn lemma_version_directory_round_trip(version: u32)
    ensures
        schema_version_spec(version_directory_spec(version)) == Some(version),
{
    reveal_strlit("v");
    let digits = decimal_spec(version as nat);
    lemma_decimal_spec_value(version as nat);
    assert(version_directory_spec(version).drop_first() =~= digits);
}

/// The file of a shard: its number in lower-case hexadecimal, padded with
/// zeros to four digits, then `.json`.
pub open spec fn shard_file_spec(shard: usize) -> Seq<char> {
    zero_padded(hex_spec(shard as nat), 4) + ".json"@
}

/// The file name of a shard, such as `0268.json` for shard 616.
pub fn shard_file_name(shard: usize) -> (r: String)
    ensures
        r@ == shard_file_spec(shard),
{
    let mut r = String::new();
    push_padded_digits(&mut r, shard as u64, 16, 4);
    r.append(".json");
    r
}

/// The file of a partition: its number in decimal, padded with zeros to
/// three digits, then `.jsonl`.
pub open spec fn partition_file_spec(partition: usize) -> Seq<char> {
    zero_padded(decimal_spec(partition as nat), 3) + ".jsonl"@
}

/// The file name of a partition, such as `007.jsonl`.
pub fn partition_file_name(partition: usize) -> (r: String)
    ensures
        r@ == partition_file_spec(partition),
{
    let mut r = String::new();
    push_padded_digits(&mut r, partition as u64, 10, 3);
    r.append(".jsonl");
    r
}

/// A hidden sibling of the directory `name` that belongs to one process:
/// `.`, the name, `-`, the process id in decimal, `.` and an extension.
pub open spec fn sibling_spec(name: Seq<char>, process_id: u32, extension: Seq<char>) -> Seq<char> {
    "."@ + name + "-"@ + decimal_spec(process_id as nat) + "."@ + extension
}

/// The name of the directory where the output `name` is built before it
/// is published.
pub fn staging_name(name: &str, process_id: u32) -> (r: String)
    ensures
        r@ == sibling_spec(name@, process_id, "tmp"@),
{
    let mut r = ".".to_owned();
    r.append(name);
    r.append("-");
    push_digits(&mut r, process_id as u64, 10);
    r.append(".tmp");
    proof {
        reveal_strlit(".");
        reveal_strlit(".tmp");
        reveal_strlit("tmp");
        assert(".tmp"@ =~= "."@ + "tmp"@);
    }
    r
}

/// The name under which the published output `name` is kept while it is
/// replaced.
pub fn backup_name(name: &str, process_id: u32) -> (r: String)
    ensures
        r@ == sibling_spec(name@, process_id, "old"@),
{
    let mut r = ".".to_owned();
    r.append(name);
    r.append("-");
    push_digits(&mut r, process_id as u64, 10);
    r.append(".old");
    proof {
        reveal_strlit(".");
        reveal_strlit(".old");
        reveal_strlit("old");
        assert(".old"@ =~= "."@ + "old"@);
    }
    r
}

/// The message of a failed file-system action: `could not {action}
/// {path}: {error}`.
pub fn path_error(action: &str, path: &str, error: &str) -> (r: String)
    ensures
        r@ == "could not "@ + action@ + " "@ + path@ + ": "@ + error@,
{
    let mut r = "could not ".to_owned();
    r.append(action);
    r.append(" ");
    r.append(path);
    r.append(": ");
    r.append(error);
    r
}

/// Why a schema directory in the output root is refused.
pub enum SchemaRefusal {
    /// The directory lacks the output marker: this tool did not generate it.
    Unmarked,
    /// The directory holds a newer schema than this generator writes.
    Newer(u32),
}

impl SchemaRefusal {
    /// The error message for refusing the schema directory at `path`.
    pub fn message(&self, path: &str) -> (r: String)
        ensures
            r@ == match self {
                SchemaRefusal::Unmarked => "refusing to manage "@ + path@
                    + " because it was not generated by this tool"@,
                SchemaRefusal::Newer(v) => "refusing to replace newer schema "@
                    + version_directory_spec(*v) + " with "@ + version_directory_spec(SCHEMA_VERSION),
            },
    {
        match self {
            SchemaRefusal::Unmarked => {
                let mut r = "refusing to manage ".to_owned();
                r.append(path);
                r.append(" because it was not generated by this tool");
                r
            },
            SchemaRefusal::Newer(v) => {
                let mut r = "refusing to replace newer schema ".to_owned();
                let newer = version_directory(*v);
                r.append(newer.as_str());
                r.append(" with ");
                let current = version_directory(SCHEMA_VERSION);
                r.append(current.as_str());
                r
            },
        }
    }
}

/// Whether a schema directory of the output root may be managed: it must
/// carry the output marker and hold no newer schema than `SCHEMA_VERSION`.
pub fn check_schema_directory(version: u32, has_marker: bool) -> (r: Result<(), SchemaRefusal>)
    ensures
        !has_marker ==> r matches Err(SchemaRefusal::Unmarked),
        has_marker && version > SCHEMA_VERSION ==> (r matches Err(SchemaRefusal::Newer(v))
            && v == version),
        r is Ok <==> has_marker && version <= SCHEMA_VERSION,
{
    if !has_marker {
        return Err(SchemaRefusal::Unmarked);
    }
    if version > SCHEMA_VERSION {
        return Err(SchemaRefusal::Newer(version));
    }
    Ok(())
}

/// Why an existing output path is refused as the output root.
pub enum OutputRootRefusal {
    /// The path is not a directory.
    NotADirectory,
    /// The directory has content but no root marker: this tool did not create it.
    NotVersionedRoot,
}

impl OutputRootRefusal {
    /// The error message for refusing `path` as the output root.
    pub fn message(&self, path: &str) -> (r: String)
        ensures
            r@ == match self {
                OutputRootRefusal::NotADirectory => "--output must name a directory: "@ + path@,
                OutputRootRefusal::NotVersionedRoot => "refusing to use "@ + path@
                    + " because it was not created as a versioned output root"@,
            },
    {
        match self {
            OutputRootRefusal::NotADirectory => {
                let mut r = "--output must name a directory: ".to_owned();
                r.append(path);
                r
            },
            OutputRootRefusal::NotVersionedRoot => {
                let mut r = "refusing to use ".to_owned();
                r.append(path);
                r.append(" because it was not created as a versioned output root");
                r
            },
        }
    }
}

/// Whether an existing path may serve as the output root: it must be a
/// directory that carries the root marker or is empty.
pub fn check_output_root(is_dir: bool, has_root_marker: bool, is_empty: bool) -> (r: Result<
    (),
    OutputRootRefusal,
>)
    ensures
        !is_dir ==> r matches Err(OutputRootRefusal::NotADirectory),
        is_dir && !has_root_marker && !is_empty ==> r matches Err(
            OutputRootRefusal::NotVersionedRoot,
        ),
        r is Ok <==> is_dir && (has_root_marker || is_empty),
{
    if !is_dir {
        return Err(OutputRootRefusal::NotADirectory);
    }
    if !has_root_marker && !is_empty {
        return Err(OutputRootRefusal::NotVersionedRoot);
    }
    Ok(())
}

/// How a freshly built schema directory is published.
pub enum PublishMode {
    /// Nothing is there yet: the staging directory is renamed into place.
    Move,
    /// An earlier output is there: it is set aside under its backup name,
    /// the staging directory is renamed into place, and the backup removed.
    Replace,
}

/// Why a freshly built schema directory cannot be published.
pub enum PublishRefusal {
    /// The directory in place lacks the output marker: this tool did not
    /// generate it.
    NotGenerated,
    /// A backup from an interrupted run of this process id is in the way.
    StaleBackup,
}

impl PublishRefusal {
    /// The error message for refusing to publish over `output`, whose backup
    /// name is `backup`.
    pub fn message(&self, output: &str, backup: &str) -> (r: String)
        ensures
            r@ == match self {
                PublishRefusal::NotGenerated => "refusing to replace "@ + output@
                    + " because it was not generated by this tool"@,
                PublishRefusal::StaleBackup => "stale backup exists at "@ + backup@,
            },
    {
        match self {
            PublishRefusal::NotGenerated => {
                let mut r = "refusing to replace ".to_owned();
                r.append(output);
                r.append(" because it was not generated by this tool");
                r
            },
            PublishRefusal::StaleBackup => {
                let mut r = "stale backup exists at ".to_owned();
                r.append(backup);
                r
            },
        }
    }
}

/// How to publish a built schema directory: moved into place when nothing
/// is there; otherwise the directory there must carry the output marker and
/// its backup name must be free, and it is replaced.
pub fn check_publish(output_exists: bool, has_marker: bool, backup_exists: bool) -> (r: Result<
    PublishMode,
    PublishRefusal,
>)
    ensures
        !output_exists ==> r matches Ok(PublishMode::Move),
        output_exists && !has_marker ==> r matches Err(PublishRefusal::NotGenerated),
        output_exists && has_marker && backup_exists ==> r matches Err(PublishRefusal::StaleBackup),
        output_exists && has_marker && !backup_exists ==> r matches Ok(PublishMode::Replace),
{
    if !output_exists {
        return Ok(PublishMode::Move);
    }
    if !has_marker {
        return Err(PublishRefusal::NotGenerated);
    }
    if backup_exists {
        return Err(PublishRefusal::StaleBackup);
    }
    Ok(PublishMode::Replace)
}

/// Positions listed newest version first.
pub open spec fn newest_first(versions: Seq<u32>, positions: Seq<usize>) -> bool {
    forall|i: int, j: int|
        0 <= i < j < positions.len() ==> versions[#[trigger] positions[i] as int]
            >= versions[#[trigger] positions[j] as int]
}

/// A choice of schema directories to remove: each at most once, all but the
/// `RETAINED_SCHEMA_VERSIONS` kept, no kept version older than a removed
/// one, and listed newest first (the order in which they are removed).
pub open spec fn is_pruning_of(versions: Seq<u32>, removed: Seq<usize>) -> bool {
    &&& newest_first(versions, removed)
    &&& forall|i: int| 0 <= i < removed.len() ==> (#[trigger] removed[i]) < versions.len()
    &&& forall|i: int, j: int| 0 <= i < j < removed.len() ==> removed[i] != removed[j]
    &&& removed.len() == (if versions.len() > RETAINED_SCHEMA_VERSIONS {
        versions.len() - RETAINED_SCHEMA_VERSIONS
    } else {
        0
    })
    &&& forall|k: int, i: int|
        0 <= k < versions.len() && !removed.contains(k as usize) && 0 <= i < removed.len()
            ==> #[trigger] versions[k] >= versions[#[trigger] removed[i] as int]
}

/// The version at `k` is newer than every other.
pub open spec fn is_strictly_newest(versions: Seq<u32>, k: int) -> bool {
    &&& 0 <= k < versions.len()
    &&& forall|j: int| 0 <= j < versions.len() && j != k ==> #[trigger] versions[j] < versions[k]
}

fn index_of_newest(versions: &Vec<u32>, skip: Option<usize>) -> (r: usize)
    requires
        versions@.len() >= 2,
        skip matches Some(s) ==> s < versions@.len(),
    ensures
        r < versions@.len(),
        skip != Some(r),
        forall|k: int|
            0 <= k < versions@.len() && skip != Some(k as usize) ==> versions@[k] <= versions@[r as int],
{
    let mut best: usize = if skip == Some(0usize) { 1 } else { 0 };
    let mut i: usize = 0;
    while i < versions.len()
        invariant
            versions@.len() >= 2,
            i <= versions@.len(),
            best < versions@.len(),
            skip != Some(best),
            forall|k: int|
                0 <= k < i && skip != Some(k as usize) ==> versions@[k] <= versions@[best as int],
        decreases versions@.len() - i,
    {
        if skip != Some(i) && versions[i] > versions[best] {
            best = i;
        }
        i += 1;
    }
    best
}

/// The positions of `indices` reordered newest version first; positions
/// of equal versions keep their order.
fn sort_newest_first(versions: &Vec<u32>, indices: Vec<usize>) -> (out: Vec<usize>)
    requires
        forall|i: int| 0 <= i < indices@.len() ==> (#[trigger] indices@[i]) < versions@.len(),
        forall|i: int, j: int| 0 <= i < j < indices@.len() ==> indices@[i] != indices@[j],
    ensures
        out@.len() == indices@.len(),
        forall|x: usize| out@.contains(x) <==> indices@.contains(x),
        forall|i: int| 0 <= i < out@.len() ==> (#[trigger] out@[i]) < versions@.len(),
        forall|i: int, j: int| 0 <= i < j < out@.len() ==> out@[i] != out@[j],
        newest_first(versions@, out@),
{
    let mut out: Vec<usize> = Vec::new();
    let mut n: usize = 0;
    while n < indices.len()
        invariant
            n <= indices@.len(),
            out@.len() == n,
            forall|i: int| 0 <= i < indices@.len() ==> (#[trigger] indices@[i]) < versions@.len(),
            forall|i: int, j: int| 0 <= i < j < indices@.len() ==> indices@[i] != indices@[j],
            forall|x: usize| out@.contains(x) <==> indices@.take(n as int).contains(x),
            forall|i: int| 0 <= i < out@.len() ==> (#[trigger] out@[i]) < versions@.len(),
            forall|i: int, j: int| 0 <= i < j < out@.len() ==> out@[i] != out@[j],
            newest_first(versions@, out@),
        decreases indices@.len() - n,
    {
        let x = indices[n];
        let vx = versions[x];
        let mut p: usize = 0;
        while p < out.len() && versions[out[p]] >= vx
            invariant
                p <= out@.len(),
                forall|i: int| 0 <= i < out@.len() ==> (#[trigger] out@[i]) < versions@.len(),
                forall|q: int| 0 <= q < p ==> versions@[#[trigger] out@[q] as int] >= vx,
            decreases out@.len() - p,
        {
            p += 1;
        }
        let ghost before = out@;
        assert forall|q: int| p <= q < before.len() implies versions@[#[trigger] before[q] as int] < vx by {
            if q > p {
                assert(versions@[before[p as int] as int] >= versions@[before[q] as int]);
            }
        }
        assert(!before.contains(x)) by {
            if before.contains(x) {
                assert(indices@.take(n as int).contains(x));
                let k = choose|k: int| 0 <= k < n && indices@.take(n as int)[k] == x;
                assert(indices@[k] == indices@[n as int]);
            }
        }
        out.insert(p, x);
        assert(out@ =~= before.insert(p as int, x));
        assert forall|y: usize| out@.contains(y) <==> indices@.take(n + 1).contains(y) by {
            assert(indices@.take(n + 1) =~= indices@.take(n as int).push(x));
            if out@.contains(y) {
                let k = choose|k: int| 0 <= k < out@.len() && out@[k] == y;
                if k < p {
                    assert(before[k] == y);
                } else if k > p {
                    assert(before[k - 1] == y);
                }
            }
            if before.contains(y) {
                let k = choose|k: int| 0 <= k < before.len() && before[k] == y;
                if k < p {
                    assert(out@[k] == y);
                } else {
                    assert(out@[k + 1] == y);
                }
            }
            if y == x {
                assert(out@[p as int] == y);
            }
            let t = indices@.take(n as int);
            if t.push(x).contains(y) {
                let k = choose|k: int| 0 <= k < t.push(x).len() && t.push(x)[k] == y;
                if k < t.len() {
                    assert(t[k] == y);
                    assert(t.contains(y));
                }
            }
            if t.contains(y) {
                let k = choose|k: int| 0 <= k < t.len() && t[k] == y;
                assert(t.push(x)[k] == y);
            }
            if y == x {
                assert(t.push(x)[t.len() as int] == y);
            }
        }
        assert forall|i: int, j: int| 0 <= i < j < out@.len() implies out@[i] != out@[j] by {
            if i == p {
                assert(before.contains(out@[j]));
            } else if j == p {
                assert(before.contains(out@[i]));
            }
        }
        assert forall|i: int, j: int| 0 <= i < j < out@.len() implies versions@[#[trigger] out@[i] as int]
            >= versions@[#[trigger] out@[j] as int] by {
            if i < p && j == p {
            } else if i == p && j > p {
                assert(out@[j] == before[j - 1]);
            } else if i < p && j > p {
                assert(out@[j] == before[j - 1]);
            } else if i > p {
                assert(out@[i] == before[i - 1]);
                assert(out@[j] == before[j - 1]);
            }
        }
        n += 1;
    }
    assert(indices@.take(n as int) =~= indices@);
    out
}

/// The schema directories to remove, by position in `versions`: all but the
/// two newest, newest first.
pub fn versions_to_remove(versions: &Vec<u32>) -> (removed: Vec<usize>)
    ensures
        is_pruning_of(versions@, removed@),
        forall|k: int| #[trigger] is_strictly_newest(versions@, k) ==> !removed@.contains(k as usize),
{
    let mut removed: Vec<usize> = Vec::new();
    if versions.len() <= RETAINED_SCHEMA_VERSIONS {
        return removed;
    }

    let first = index_of_newest(versions, None);
    let second = index_of_newest(versions, Some(first));
    let mut i: usize = 0;
    while i < versions.len()
        invariant
            i <= versions@.len(),
            versions@.len() > RETAINED_SCHEMA_VERSIONS,
            first < versions@.len(),
            second < versions@.len(),
            first != second,
            forall|k: int| 0 <= k < versions@.len() ==> versions@[k] <= versions@[first as int],
            forall|k: int|
                0 <= k < versions@.len() && k != first ==> versions@[k] <= versions@[second as int],
            forall|j: int| 0 <= j < removed@.len() ==> (#[trigger] removed@[j]) < i,
            forall|a: int, b: int| 0 <= a < b < removed@.len() ==> removed@[a] < removed@[b],
            forall|j: int|
                0 <= j < removed@.len() ==> #[trigger] removed@[j] != first && removed@[j] != second,
            forall|k: int|
                0 <= k < i && k != first && k != second ==> #[trigger] removed@.contains(
                    k as usize,
                ),
            removed@.len() == i - (if first < i {
                1int
            } else {
                0
            }) - (if second < i {
                1int
            } else {
                0
            }),
        decreases versions@.len() - i,
    {
        let ghost before = removed@;
        if i != first && i != second {
            removed.push(i);
            assert(removed@[removed@.len() - 1] == i);
        }
        assert forall|k: int| 0 <= k <= i && k != first && k != second implies #[trigger] removed@.contains(
            k as usize,
        ) by {
            if k < i {
                assert(before.contains(k as usize));
                let x = choose|x: int| 0 <= x < before.len() && before[x] == k as usize;
                assert(removed@[x] == k as usize);
            } else {
                assert(removed@[removed@.len() - 1] == k as usize);
            }
        }
        i += 1;
    }
    proof {
        assert forall|k: int, j: int|
            0 <= k < versions@.len() && !removed@.contains(k as usize) && 0 <= j < removed@.len()
                implies #[trigger] versions@[k] >= versions@[#[trigger] removed@[j] as int] by {
            assert(k == first || k == second);
        }
        assert forall|k: int| #[trigger] is_strictly_newest(versions@, k) implies !removed@.contains(
            k as usize,
        ) by {
            if k != first {
                assert(versions@[first as int] < versions@[k]);
            }
        }
    }
    let ghost chosen = removed@;
    let sorted = sort_newest_first(versions, removed);
    proof {
        assert forall|k: int, j: int|
            0 <= k < versions@.len() && !sorted@.contains(k as usize) && 0 <= j < sorted@.len()
                implies #[trigger] versions@[k] >= versions@[#[trigger] sorted@[j] as int] by {
            assert(sorted@.contains(sorted@[j]));
            let x = choose|x: int| 0 <= x < chosen.len() && chosen[x] == sorted@[j];
        }
    }
    sorted
}

/// The `_headers` file for Workers Static Assets: CORS and cache headers for
/// the shards and the metadata of every schema version.
pub fn headers() -> (r: &'static str)
    ensures
        r@ == "/:version/shards/*\n  Access-Control-Allow-Origin: *\n  Cache-Control: public, max-age=3600, must-revalidate\n\n/:version/metadata.json\n  Access-Control-Allow-Origin: *\n  Cache-Control: public, max-age=300, must-revalidate\n"@,
{
    "/:version/shards/*\n  Access-Control-Allow-Origin: *\n  Cache-Control: public, max-age=3600, must-revalidate\n\n/:version/metadata.json\n  Access-Control-Allow-Origin: *\n  Cache-Control: public, max-age=300, must-revalidate\n"
}

/// The license, attribution and modification notice for the Wiktionary data.
pub fn wiktionary_notice() -> (r: &'static str)
    ensures
        r@ == "Dictionary data license and attribution\n\nThe definitions, ordinary usage examples, parts of speech, and phonetic transcriptions in this distribution are derived from Wiktionary contributors. Each generated entry has a sourceUrl linking to the corresponding Wiktionary page and its contributor history.\n\nSource: https://en.wiktionary.org/\nCopyright information: https://en.wiktionary.org/wiki/Wiktionary:Copyrights\nLicense: Creative Commons Attribution-ShareAlike 4.0 International\nLicense URL: https://creativecommons.org/licenses/by-sa/4.0/\n\nChanges were made. Wiktextract converted Wiktionary markup to structured data. This generator selected supported languages and fields, normalized lookup keys, combined entries, limited meanings and definitions, omitted sourced quotations and other unused fields, and emitted hashed JSON shards. The generated dictionary data is distributed under CC BY-SA 4.0.\n\nWiktextract: https://github.com/tatuylonen/wiktextract\nNo endorsement by Wiktionary, its contributors, or the Wikimedia Foundation is implied.\n"@,
{
    "Dictionary data license and attribution\n\nThe definitions, ordinary usage examples, parts of speech, and phonetic transcriptions in this distribution are derived from Wiktionary contributors. Each generated entry has a sourceUrl linking to the corresponding Wiktionary page and its contributor history.\n\nSource: https://en.wiktionary.org/\nCopyright information: https://en.wiktionary.org/wiki/Wiktionary:Copyrights\nLicense: Creative Commons Attribution-ShareAlike 4.0 International\nLicense URL: https://creativecommons.org/licenses/by-sa/4.0/\n\nChanges were made. Wiktextract converted Wiktionary markup to structured data. This generator selected supported languages and fields, normalized lookup keys, combined entries, limited meanings and definitions, omitted sourced quotations and other unused fields, and emitted hashed JSON shards. The generated dictionary data is distributed under CC BY-SA 4.0.\n\nWiktextract: https://github.com/tatuylonen/wiktextract\nNo endorsement by Wiktionary, its contributors, or the Wikimedia Foundation is implied.\n"
}

/// The `.assetsignore` file: the markers and the file itself stay out of
/// the deployed assets.
pub fn assets_ignore() -> (r: String)
    ensures
        r@ == ROOT_MARKER@ + "\n**/"@ + OUTPUT_MARKER@ + "\n.assetsignore\n"@,
{
    let mut r = ROOT_MARKER.to_owned();
    r.append("\n**/");
    r.append(OUTPUT_MARKER);
    r.append("\n.assetsignore\n");
    r
}

} // verus!
