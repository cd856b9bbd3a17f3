//! Naming of persisted results and choosing the latest one for a project.
//!
//! Each result is written as `{project_id}_{transaction time with ':' as '-'}.json`
//! in its table's directory; the latest result of a project is the greatest
//! such name (in byte order): `{project_id}_`, then a time stamp, then `.json`.

use vstd::prelude::*;
use vstd::string::StrSliceExecFns;
use vstd::string::StringSliceAdditionalSpecFns;

use crate::text::{bytes_le, owned, text_le};

verus! {

broadcast use vstd::seq_lib::group_seq_properties;

/// `s` with every `':'` replaced by `'-'`.
pub open spec fn colons_to_dashes(s: Seq<char>) -> Seq<char> {
    s.map_values(|c: char| if c == ':' { '-' } else { c })
}

/// The file name a result of `project_id` recorded at `txn_time` is stored under.
pub open spec fn spec_snapshot_file_name(project_id: Seq<char>, txn_time: Seq<char>) -> Seq<char> {
    project_id + "_"@ + colons_to_dashes(txn_time) + ".json"@
}

/// A character of a stored time stamp: a digit or one of `-`, `T`, `.`, `+`, `Z`
/// (an RFC 3339 time with its colons turned into dashes).
pub open spec fn is_stamp_char(c: char) -> bool {
    ||| ('0' as u32) <= (c as u32) <= ('9' as u32)
    ||| c == '-'
    ||| c == 'T'
    ||| c == '.'
    ||| c == '+'
    ||| c == 'Z'
}

/// A transaction time as the store records it: non-empty RFC 3339 text (digits,
/// `-`, `:`, `T`, `.`, `+`, `Z`).
pub open spec fn is_txn_time(t: Seq<char>) -> bool {
    &&& t.len() > 0
    &&& forall|i: int| 0 <= i < t.len() ==> #[trigger] is_stamp_char(t[i]) || t[i] == ':'
}

/// A stored time stamp: non-empty, of stamp characters only.
pub open spec fn is_stamp(s: Seq<char>) -> bool {
    &&& s.len() > 0
    &&& forall|i: int| 0 <= i < s.len() ==> #[trigger] is_stamp_char(s[i])
}

/// The file name `name` holds a result of `project_id`: it is `project_id`,
/// `_`, a time stamp and `.json`.
pub open spec fn spec_is_snapshot_of(name: Seq<char>, project_id: Seq<char>) -> bool {
    let prefix = project_id + "_"@;
    let suffix = ".json"@;
    &&& name.len() >= prefix.len() + suffix.len()
    &&& name.take(prefix.len() as int) == prefix
    &&& name.skip(name.len() - suffix.len()) == suffix
    &&& is_stamp(name.subrange(prefix.len() as int, name.len() - suffix.len()))
}

/// The file name for a result of `project_id` recorded at `txn_time`.
pub fn snapshot_file_name(project_id: &str, txn_time: &str) -> (r: String)
    ensures
        r@ == spec_snapshot_file_name(project_id@, txn_time@),
{
    let mut name = owned(project_id);
    name.append("_");
    let n = txn_time.unicode_len();
    let ghost start = name@;
    let mut i: usize = 0;
    while i < n
        invariant
            i <= n,
            n == txn_time@.len(),
            name@ == start + colons_to_dashes(txn_time@.take(i as int)),
        decreases n - i,
    {
        let c = txn_time.get_char(i);
        if c == ':' {
            name.append("-");
            proof {
                reveal_strlit("-");
            }
        } else {
            name.append(txn_time.substring_char(i, i + 1));
        }
        assert(colons_to_dashes(txn_time@.take(i + 1)) =~= colons_to_dashes(txn_time@.take(i as int))
            + seq![if c == ':' { '-' } else { c }]);
        i = i + 1;
    }
    assert(txn_time@.take(n as int) =~= txn_time@);
    name.append(".json");
    name
}

fn has_prefix(s: &str, prefix: &str) -> (r: bool)
    ensures
        r == (s@.len() >= prefix@.len() && s@.take(prefix@.len() as int) == prefix@),
{
    let n = s.unicode_len();
    let m = prefix.unicode_len();
    if n < m {
        return false;
    }
    let mut i: usize = 0;
    while i < m
        invariant
            i <= m <= n,
            n == s@.len(),
            m == prefix@.len(),
            forall|j: int| 0 <= j < i ==> s@[j] == prefix@[j],
        decreases m - i,
    {
        if s.get_char(i) != prefix.get_char(i) {
            assert(s@.take(m as int)[i as int] != prefix@[i as int]);
            return false;
        }
        i = i + 1;
    }
    assert(s@.take(m as int) =~= prefix@);
    true
}

fn has_suffix(s: &str, suffix: &str) -> (r: bool)
    ensures
        r == (s@.len() >= suffix@.len() && s@.skip(s@.len() - suffix@.len()) == suffix@),
{
    let n = s.unicode_len();
    let m = suffix.unicode_len();
    if n < m {
        return false;
    }
    let off = n - m;
    let mut i: usize = 0;
    while i < m
        invariant
            i <= m <= n,
            off == n - m,
            n == s@.len(),
            m == suffix@.len(),
            forall|j: int| 0 <= j < i ==> s@[off + j] == suffix@[j],
        decreases m - i,
    {
        if s.get_char(off + i) != suffix.get_char(i) {
            assert(s@.skip(off as int)[i as int] != suffix@[i as int]);
            return false;
        }
        i = i + 1;
    }
    assert(s@.skip(off as int) =~= suffix@);
    true
}

/// The file name `name` holds a result of `project_id`.
pub fn is_snapshot_of(name: &str, project_id: &str) -> (r: bool)
    ensures
        r == spec_is_snapshot_of(name@, project_id@),
{
    proof {
        reveal_strlit("_");
        reveal_strlit(".json");
    }
    let mut prefix = owned(project_id);
    prefix.append("_");
    let suffix = ".json";
    let n = name.unicode_len();
    let p = prefix.unicode_len();
    if n < 5 || n - 5 < p {
        return false;
    }
    if !(has_prefix(name, prefix.as_str()) && has_suffix(name, suffix)) {
        return false;
    }
    let stop = n - 5;
    if p >= stop {
        return false;
    }
    let mut i: usize = p;
    while i < stop
        invariant
            p <= i <= stop,
            stop == n - 5,
            n == name@.len(),
            p == (project_id@ + "_"@).len(),
            ".json"@.len() == 5,
            forall|j: int| p <= j < i ==> is_stamp_char(#[trigger] name@[j]),
        decreases stop - i,
    {
        let c = name.get_char(i);
        let k = c as u32;
        if !((48 <= k && k <= 57) || c == '-' || c == 'T' || c == '.' || c == '+' || c == 'Z') {
            assert(!is_stamp_char(name@.subrange(p as int, stop as int)[i - p]));
            return false;
        }
        i = i + 1;
    }
    assert forall|j: int| 0 <= j < stop - p implies #[trigger] is_stamp_char(
        name@.subrange(p as int, stop as int)[j],
    ) by {
        assert(name@.subrange(p as int, stop as int)[j] == name@[p + j]);
    }
    true
}

/// The name stored for a project is one its latest-result lookup considers.
pub proof fn lemma_saved_name_is_found(project_id: Seq<char>, txn_time: Seq<char>)
    requires
        is_txn_time(txn_time),
    ensures
        spec_is_snapshot_of(spec_snapshot_file_name(project_id, txn_time), project_id),
{
    reveal_strlit("_");
    reveal_strlit(".json");
    let name = spec_snapshot_file_name(project_id, txn_time);
    let prefix = project_id + "_"@;
    let stamp = colons_to_dashes(txn_time);
    assert(name == prefix + (stamp + ".json"@));
    assert(name.take(prefix.len() as int) =~= prefix);
    assert(name.skip(name.len() - ".json"@.len()) =~= ".json"@);
    assert(name.subrange(prefix.len() as int, name.len() - 5) =~= stamp);
    assert forall|i: int| 0 <= i < stamp.len() implies #[trigger] is_stamp_char(stamp[i]) by {
        assert(is_stamp_char(txn_time[i]) || txn_time[i] == ':');
    }
}

/// A name stored for one project is never taken for another's: the lookup for
/// `project_id` considers a stored name only when it was stored for `project_id`.
pub proof fn lemma_other_projects_not_found(project_id: Seq<char>, other: Seq<char>, txn_time: Seq<char>)
    requires
        is_txn_time(txn_time),
        spec_is_snapshot_of(spec_snapshot_file_name(other, txn_time), project_id),
    ensures
        other == project_id,
{
    reveal_strlit("_");
    reveal_strlit(".json");
    let name = spec_snapshot_file_name(other, txn_time);
    let stamp = colons_to_dashes(txn_time);
    let po: int = other.len() as int;
    let pp: int = project_id.len() as int;
    assert(name == other + "_"@ + stamp + ".json"@);
    assert(name.len() == po + 1 + stamp.len() + 5);
    assert(name[po] == '_');
    assert(forall|i: int| 0 <= i < stamp.len() ==> #[trigger] stamp[i] != '_') by {
        assert forall|i: int| 0 <= i < stamp.len() implies #[trigger] stamp[i] != '_' by {
            assert(is_stamp_char(txn_time[i]) || txn_time[i] == ':');
        }
    }
    assert(name.take(pp + 1)[pp] == '_');
    assert(name[pp] == '_');
    if pp > po {
        // `name[pp]` falls in the stamp or in `.json`, neither of which holds `_`.
        if pp < po + 1 + stamp.len() {
            assert(name[pp] == stamp[pp - po - 1]);
        } else {
            assert(name[pp] == ".json"@[pp - po - 1 - stamp.len()]);
        }
    } else if pp < po {
        // The `_` after `other` falls inside the stamp of `project_id`.
        let mid = name.subrange(pp + 1, name.len() - 5);
        assert(mid[po - pp - 1] == name[po]);
        assert(is_stamp_char(mid[po - pp - 1]));
    } else {
        assert(name.take(pp + 1).take(pp) =~= project_id);
        assert(name.take(pp) =~= other);
    }
}

pub open spec fn name_bytes(s: String) -> Seq<u8> {
    vstd::utf8::encode_utf8(s@)
}

/// `r` is the index of the greatest (in byte order) of `names` that holds a
/// result of `project_id`, or `None` when none does.
pub open spec fn is_latest_snapshot(r: Option<usize>, names: Seq<String>, project_id: Seq<char>) -> bool {
    match r {
        Some(i) => {
            &&& i < names.len()
            &&& spec_is_snapshot_of(names[i as int]@, project_id)
            &&& forall|j: int|
                0 <= j < names.len() && spec_is_snapshot_of(#[trigger] names[j]@, project_id) ==> bytes_le(
                    name_bytes(names[j]),
                    name_bytes(names[i as int]),
                )
        },
        None => forall|j: int| 0 <= j < names.len() ==> !spec_is_snapshot_of(#[trigger] names[j]@, project_id),
    }
}

proof fn lemma_bytes_le_total(a: Seq<u8>, b: Seq<u8>)
    ensures
        bytes_le(a, b) || bytes_le(b, a),
    decreases a.len(),
{
    if a.len() > 0 && b.len() > 0 && a[0] == b[0] {
        lemma_bytes_le_total(a.drop_first(), b.drop_first());
    }
}

proof fn lemma_bytes_le_refl(a: Seq<u8>)
    ensures
        bytes_le(a, a),
    decreases a.len(),
{
    if a.len() > 0 {
        lemma_bytes_le_refl(a.drop_first());
    }
}

proof fn lemma_bytes_le_trans(a: Seq<u8>, b: Seq<u8>, c: Seq<u8>)
    requires
        bytes_le(a, b),
        bytes_le(b, c),
    ensures
        bytes_le(a, c),
    decreases a.len(),
{
    if a.len() > 0 && b.len() > 0 && c.len() > 0 && a[0] == b[0] && b[0] == c[0] {
        lemma_bytes_le_trans(a.drop_first(), b.drop_first(), c.drop_first());
    }
}

/// Of the file names in a table's directory, the one holding the latest result
/// of `project_id` (see `is_latest_snapshot`).
pub fn latest_snapshot(names: &Vec<String>, project_id: &str) -> (r: Option<usize>)
    ensures
        is_latest_snapshot(r, names@, project_id@),
{
    let mut best: Option<usize> = None;
    let mut i: usize = 0;
    while i < names.len()
        invariant
            i <= names.len(),
            match best {
                Some(b) => {
                    &&& b < i
                    &&& spec_is_snapshot_of(names[b as int]@, project_id@)
                    &&& forall|j: int|
                        0 <= j < i && spec_is_snapshot_of(#[trigger] names[j]@, project_id@) ==> bytes_le(
                            name_bytes(names[j]),
                            name_bytes(names[b as int]),
                        )
                },
                None => forall|j: int| 0 <= j < i ==> !spec_is_snapshot_of(#[trigger] names[j]@, project_id@),
            },
        decreases names.len() - i,
    {
        if is_snapshot_of(names[i].as_str(), project_id) {
            match best {
                None => {
                    proof {
                        lemma_bytes_le_refl(name_bytes(names[i as int]));
                    }
                    best = Some(i);
                },
                Some(b) => {
                    let x = names[b].as_str();
                    let y = names[i].as_str();
                    assert(x.spec_bytes() == name_bytes(names[b as int]));
                    assert(y.spec_bytes() == name_bytes(names[i as int]));
                    let later = text_le(x, y);
                    if later {
                        proof {
                            assert forall|j: int|
                                0 <= j < i + 1 && spec_is_snapshot_of(#[trigger] names[j]@, project_id@) implies bytes_le(
                                name_bytes(names[j]),
                                name_bytes(names[i as int]),
                            ) by {
                                if j == i {
                                    lemma_bytes_le_refl(name_bytes(names[j]));
                                } else {
                                    lemma_bytes_le_trans(name_bytes(names[j]), name_bytes(names[b as int]), name_bytes(names[i as int]));
                                }
                            }
                        }
                        best = Some(i);
                    } else {
                        proof {
                            lemma_bytes_le_total(name_bytes(names[b as int]), name_bytes(names[i as int]));
                            assert(bytes_le(name_bytes(names[i as int]), name_bytes(names[b as int])));
                        }
                    }
                },
            }
        }
        i = i + 1;
    }
    best
}

} // verus!
