//! What a test expects of the archetypes of a world: for each archetype
//! the number of entities, its columns, and its removal records; and the
//! check of a world's archetypes against such expectations.
use vstd::prelude::*;
use vstd::string::StrSliceExecFns;

verus! {

/// What is expected of one archetype; `None` and empty lists mean "any".
#[derive(Debug, Clone)]
pub struct ArchetypeDebug {
    pub entitys: Option<usize>,
    pub columns_info: Vec<Option<ColumnDebug>>,
    pub destroys_listeners: Option<usize>,
    pub removes: Option<usize>,
}

/// What is expected of one column: its number of change listeners and a
/// part of its name.
#[derive(Debug, Clone)]
pub struct ColumnDebug {
    pub change_listeners: usize,
    pub name: Option<String>,
}

/// What a world shows of one of its columns: the component's name and the
/// number of listeners of its changes.
pub struct ColumnView {
    pub name: String,
    pub change_listeners: usize,
}

/// What a world shows of one of its archetypes: its number of entities, its
/// columns in order, and its number of removed rows.
pub struct ArchetypeView {
    pub len: usize,
    pub columns: Vec<ColumnView>,
    pub removes: usize,
}

/// `needle` occurs in `hay`.
pub open spec fn contains_text(hay: Seq<char>, needle: Seq<char>) -> bool {
    exists|i: int| 0 <= i <= hay.len() - needle.len() && #[trigger] hay.subrange(i, i + needle.len()) == needle
}

/// The column shows what is expected of it.
pub open spec fn column_matches(expect: ColumnDebug, shown: ColumnView) -> bool {
    &&& (expect.name matches Some(n) ==> contains_text(shown.name@, n@))
    &&& shown.change_listeners == expect.change_listeners
}

/// The archetype shows what is expected of it: its number of entities, as
/// many columns as expected (when columns are listed), each listed column
/// as expected, and its number of removed rows.
pub open spec fn archetype_matches(expect: ArchetypeDebug, shown: ArchetypeView) -> bool {
    &&& (expect.entitys matches Some(n) ==> n == shown.len)
    &&& (expect.columns_info@.len() > 0 ==> expect.columns_info@.len() == shown.columns@.len())
    &&& forall|j: int|
        0 <= j < expect.columns_info@.len() && (#[trigger] expect.columns_info@[j]) is Some ==> j < shown.columns@.len()
            && column_matches(expect.columns_info@[j]->0, shown.columns@[j])
    &&& (expect.removes matches Some(r) ==> r == shown.removes)
}

/// The archetypes show what is expected of them: as many as expected (when
/// archetypes are listed) and each listed one as expected.
pub open spec fn archetypes_match(shown: Seq<ArchetypeView>, expect: Seq<Option<ArchetypeDebug>>) -> bool {
    &&& (expect.len() > 0 ==> expect.len() == shown.len())
    &&& forall|i: int|
        0 <= i < expect.len() && (#[trigger] expect[i]) is Some ==> i < shown.len() && archetype_matches(
            expect[i]->0,
            shown[i],
        )
}

/// Whether `needle` occurs in `hay`.
pub fn find_text(hay: &str, needle: &str) -> (r: bool)
    ensures
        r == contains_text(hay@, needle@),
{
    let n = hay.unicode_len();
    let m = needle.unicode_len();
    if m > n {
        proof {
            assert forall|i: int| 0 <= i <= hay@.len() - needle@.len() implies #[trigger] hay@.subrange(i, i + needle@.len())
                != needle@ by {}
        }
        return false;
    }
    let mut i: usize = 0;
    while i <= n - m
        invariant
            n == hay@.len(),
            m == needle@.len(),
            m <= n,
            0 <= i <= n - m + 1,
            forall|p: int| 0 <= p < i ==> #[trigger] hay@.subrange(p, p + m) != needle@,
        decreases n - m + 1 - i,
    {
        let mut j: usize = 0;
        let mut same = true;
        while j < m
            invariant
                n == hay@.len(),
                m == needle@.len(),
                i + m <= n,
                0 <= j <= m,
                same == forall|q: int| 0 <= q < j ==> hay@[i + q] == needle@[q],
            decreases m - j,
        {
            if hay.get_char(i + j) != needle.get_char(j) {
                same = false;
            }
            j = j + 1;
        }
        if same {
            proof {
                assert(hay@.subrange(i as int, i + m) =~= needle@);
            }
            return true;
        }
        proof {
            let q = choose|q: int| 0 <= q < m && hay@[i + q] != needle@[q];
            assert(hay@.subrange(i as int, i + m)[q] != needle@[q]);
        }
        i = i + 1;
    }
    false
}

/// The column shows what is expected of it.
fn check_column(expect: &ColumnDebug, shown: &ColumnView) -> (r: bool)
    ensures
        r == column_matches(*expect, *shown),
{
    let name_ok = match &expect.name {
        Some(n) => find_text(shown.name.as_str(), n.as_str()),
        None => true,
    };
    name_ok && shown.change_listeners == expect.change_listeners
}

/// The archetype shows what is expected of it.
fn check_archetype(expect: &ArchetypeDebug, shown: &ArchetypeView) -> (r: bool)
    ensures
        r == archetype_matches(*expect, *shown),
{
    match expect.entitys {
        Some(n) => {
            if n != shown.len {
                return false;
            }
        },
        None => {},
    }
    if expect.columns_info.len() > 0 && expect.columns_info.len() != shown.columns.len() {
        return false;
    }
    let mut j: usize = 0;
    while j < expect.columns_info.len()
        invariant
            0 <= j <= expect.columns_info@.len(),
            expect.columns_info@.len() > 0 ==> expect.columns_info@.len() == shown.columns@.len(),
            forall|q: int|
                0 <= q < j && (#[trigger] expect.columns_info@[q]) is Some ==> q < shown.columns@.len() && column_matches(
                    expect.columns_info@[q]->0,
                    shown.columns@[q],
                ),
        decreases expect.columns_info@.len() - j,
    {
        match &expect.columns_info[j] {
            Some(c) => {
                if !check_column(c, &shown.columns[j]) {
                    return false;
                }
            },
            None => {},
        }
        j = j + 1;
    }
    match expect.removes {
        Some(r) => r == shown.removes,
        None => true,
    }
}

/// Whether the archetypes of a world show what is expected of them: as many
/// archetypes as expected (when any are listed), and for each listed one,
/// its number of entities, its number of columns (when any are listed), the
/// name and change listeners of each listed column, and its number of
/// removed rows. A test asserts the result.
pub fn assert_archetype_arr(archetypes: &Vec<ArchetypeView>, archetypes_info: &Vec<Option<ArchetypeDebug>>) -> (r: bool)
    ensures
        r == archetypes_match(archetypes@, archetypes_info@),
{
    if archetypes_info.len() > 0 && archetypes_info.len() != archetypes.len() {
        return false;
    }
    let mut i: usize = 0;
    while i < archetypes_info.len()
        invariant
            0 <= i <= archetypes_info@.len(),
            archetypes_info@.len() > 0 ==> archetypes_info@.len() == archetypes@.len(),
            forall|q: int|
                0 <= q < i && (#[trigger] archetypes_info@[q]) is Some ==> q < archetypes@.len() && archetype_matches(
                    archetypes_info@[q]->0,
                    archetypes@[q],
                ),
        decreases archetypes_info@.len() - i,
    {
        match &archetypes_info[i] {
            Some(e) => {
                if !check_archetype(e, &archetypes[i]) {
                    return false;
                }
            },
            None => {},
        }
        i = i + 1;
    }
    true
}

} // verus!
