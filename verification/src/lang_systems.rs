//! The features of a layout table, one row for each script, language and
//! feature that belong together, in a fixed order.

use crate::tag::Tag;
use vstd::prelude::*;

verus! {

/// The tag `DFLT`, the default script.
pub const DEFAULT_SCRIPT: u32 = 0x4446_4C54;

/// The tag `dflt`, the default language system.
pub const DEFAULT_LANG: u32 = 0x6466_6C74;

/// A set of lookups for a specific feature and language system.
pub struct Feature {
    pub feature: Tag,
    pub script: Tag,
    pub lang: Tag,
    pub lookups: Vec<u16>,
}

/// A [`Feature`] as plain mathematics.
pub struct FeatureRow {
    pub feature: Tag,
    pub script: Tag,
    pub lang: Tag,
    pub lookups: Seq<u16>,
}

impl View for Feature {
    type V = FeatureRow;

    open spec fn view(&self) -> FeatureRow {
        FeatureRow {
            feature: self.feature,
            script: self.script,
            lang: self.lang,
            lookups: self.lookups@,
        }
    }
}

/// The rows that `features` hold.
pub open spec fn rows(features: Seq<Feature>) -> Seq<FeatureRow> {
    Seq::new(features.len(), |i: int| features[i]@)
}

/// The place of a tag in the order of rows: `DFLT` first, `dflt` second,
/// every other tag by its bytes.
pub open spec fn tag_rank(tag: Tag) -> u32 {
    if tag.0 == DEFAULT_SCRIPT {
        0
    } else if tag.0 == DEFAULT_LANG {
        1
    } else {
        tag.0
    }
}

/// What rows are ordered by: the ranks of feature, script and language.
pub open spec fn row_key(row: FeatureRow) -> (u32, u32, u32) {
    (tag_rank(row.feature), tag_rank(row.script), tag_rank(row.lang))
}

/// Whether key `a` comes before key `b` or is equal to it.
pub open spec fn key_le(a: (u32, u32, u32), b: (u32, u32, u32)) -> bool {
    a.0 < b.0 || (a.0 == b.0 && (a.1 < b.1 || (a.1 == b.1 && a.2 <= b.2)))
}

/// Whether `features` are in the order of their keys.
pub open spec fn is_sorted(features: Seq<Feature>) -> bool {
    forall|i: int, j: int|
        0 <= i <= j < features.len() ==> key_le(
            row_key((#[trigger] features[i])@),
            row_key((#[trigger] features[j])@),
        )
}

fn tag_to_int(tag: Tag) -> (rank: u32)
    ensures
        rank == tag_rank(tag),
{
    if tag.0 == DEFAULT_SCRIPT {
        0
    } else if tag.0 == DEFAULT_LANG {
        1
    } else {
        tag.0
    }
}

impl Feature {
    /// The key by which features are ordered: `DFLT` and `dflt` come before
    /// any other tag.
    pub fn sort_key(&self) -> (key: (u32, u32, u32))
        ensures
            key == row_key(self@),
    {
        (tag_to_int(self.feature), tag_to_int(self.script), tag_to_int(self.lang))
    }
}

/// A language system of a script: its tag, and the indices of its features
/// in the feature list.
pub struct LangSys {
    pub tag: Tag,
    pub feature_indices: Vec<u16>,
}

/// A script of a script list: its tag, the feature indices of its default
/// language system if it has one, and its other language systems.
pub struct Script {
    pub tag: Tag,
    pub default_lang_sys: Option<Vec<u16>>,
    pub lang_systems: Vec<LangSys>,
}

/// An entry of a feature list: its tag and the indices of its lookups.
pub struct FeatureRecord {
    pub tag: Tag,
    pub lookups: Vec<u16>,
}

/// Whether every index points into a feature list of `num_features` entries.
pub open spec fn indices_fit(indices: Seq<u16>, num_features: int) -> bool {
    forall|i: int| 0 <= i < indices.len() ==> (#[trigger] indices[i]) < num_features
}

/// Whether every feature index of `script` points into a feature list of
/// `num_features` entries.
pub open spec fn script_fits(script: Script, num_features: int) -> bool {
    &&& script.default_lang_sys matches Some(indices) ==> indices_fit(indices@, num_features)
    &&& forall|i: int|
        0 <= i < script.lang_systems@.len() ==> indices_fit(
            (#[trigger] script.lang_systems@[i]).feature_indices@,
            num_features,
        )
}

/// The rows of one language system: one for each of its feature indices.
pub open spec fn rows_of_indices(
    script: Tag,
    lang: Tag,
    indices: Seq<u16>,
    features: Seq<FeatureRecord>,
) -> Seq<FeatureRow> {
    Seq::new(
        indices.len(),
        |i: int|
            FeatureRow {
                feature: features[indices[i] as int].tag,
                script,
                lang,
                lookups: features[indices[i] as int].lookups@,
            },
    )
}

/// The rows of some language systems of a script, one system after the other.
pub open spec fn rows_of_lang_systems(
    script: Tag,
    lang_systems: Seq<LangSys>,
    features: Seq<FeatureRecord>,
) -> Seq<FeatureRow>
    decreases lang_systems.len(),
{
    if lang_systems.len() == 0 {
        Seq::empty()
    } else {
        rows_of_lang_systems(script, lang_systems.drop_last(), features) + rows_of_indices(
            script,
            lang_systems.last().tag,
            lang_systems.last().feature_indices@,
            features,
        )
    }
}

/// The rows of a script: those of its default language system, under the
/// language `dflt`, then those of its other language systems.
pub open spec fn rows_of_script(script: Script, features: Seq<FeatureRecord>) -> Seq<FeatureRow> {
    (match script.default_lang_sys {
        Some(indices) => rows_of_indices(script.tag, Tag(DEFAULT_LANG), indices@, features),
        None => Seq::empty(),
    }) + rows_of_lang_systems(script.tag, script.lang_systems@, features)
}

/// The rows of some scripts, one script after the other.
pub open spec fn rows_of_scripts(scripts: Seq<Script>, features: Seq<FeatureRecord>) -> Seq<
    FeatureRow,
>
    decreases scripts.len(),
{
    if scripts.len() == 0 {
        Seq::empty()
    } else {
        rows_of_scripts(scripts.drop_last(), features) + rows_of_script(scripts.last(), features)
    }
}

fn copy_lookups(lookups: &Vec<u16>) -> (copy: Vec<u16>)
    ensures
        copy@ == lookups@,
{
    let mut copy: Vec<u16> = Vec::new();
    let mut i: usize = 0;
    while i < lookups.len()
        invariant
            i <= lookups.len(),
            copy@ == lookups@.subrange(0, i as int),
        decreases lookups.len() - i,
    {
        copy.push(lookups[i]);
        proof {
            assert(copy@ =~= lookups@.subrange(0, i + 1));
        }
        i = i + 1;
    }
    proof {
        assert(lookups@.subrange(0, i as int) == lookups@);
    }
    copy
}

fn push_rows(
    result: &mut Vec<Feature>,
    script: Tag,
    lang: Tag,
    indices: &Vec<u16>,
    features: &Vec<FeatureRecord>,
)
    requires
        indices_fit(indices@, features.len() as int),
    ensures
        rows(final(result)@) == rows(old(result)@) + rows_of_indices(
            script,
            lang,
            indices@,
            features@,
        ),
{
    let mut i: usize = 0;
    proof {
        assert(rows(result@) =~= rows(old(result)@) + rows_of_indices(
            script,
            lang,
            indices@.subrange(0, 0),
            features@,
        ));
    }
    while i < indices.len()
        invariant
            i <= indices.len(),
            indices_fit(indices@, features.len() as int),
            rows(result@) == rows(old(result)@) + rows_of_indices(
                script,
                lang,
                indices@.subrange(0, i as int),
                features@,
            ),
        decreases indices.len() - i,
    {
        let ghost before = result@;
        let idx: u16 = indices[i];
        let rec = &features[idx as usize];
        result.push(
            Feature { feature: rec.tag, script, lang, lookups: copy_lookups(&rec.lookups) },
        );
        proof {
            assert(rows(result@) =~= rows(old(result)@) + rows_of_indices(
                script,
                lang,
                indices@.subrange(0, i + 1),
                features@,
            )) by {
                let now = rows(result@);
                let want = rows(old(result)@) + rows_of_indices(
                    script,
                    lang,
                    indices@.subrange(0, i + 1),
                    features@,
                );
                let was = rows(before);
                let part = rows_of_indices(script, lang, indices@.subrange(0, i as int), features@);
                assert(was == rows(old(result)@) + part);
                assert(was.len() == before.len());
                assert(part.len() == i);
                assert(now.len() == want.len());
                assert forall|k: int| 0 <= k < now.len() implies now[k] == want[k] by {
                    if k < before.len() {
                        assert(result@[k] == before[k]);
                        assert(now[k] == was[k]);
                        if k >= old(result)@.len() {
                            assert(was[k] == part[k - old(result)@.len()]);
                        }
                    }
                }
            }
        }
        i = i + 1;
    }
    proof {
        assert(indices@.subrange(0, i as int) == indices@);
    }
}

/// Sorts `features` by their keys, with `slice::sort_unstable_by_key` of the
/// standard library. The standard library promises that the slice is then in
/// the order of the keys, and that it holds what it held; it promises
/// nothing on the order of elements with equal keys.
#[verifier::external_body]
fn sort_features(features: &mut Vec<Feature>)
    ensures
        rows(final(features)@).to_multiset() == rows(old(features)@).to_multiset(),
        is_sorted(final(features)@),
{
    features.sort_unstable_by_key(|sys| sys.sort_key());
}

/// All rows of a layout table: for each script, each of its language
/// systems, and each feature of that system, the feature with its lookups.
/// The rows come ordered by feature, script and language, with `DFLT` and
/// `dflt` before every other tag.
pub fn get_lang_systems(scripts: &Vec<Script>, features: &Vec<FeatureRecord>) -> (result: Vec<
    Feature,
>)
    requires
        forall|i: int|
            0 <= i < scripts.len() ==> script_fits(#[trigger] scripts@[i], features.len() as int),
    ensures
        rows(result@).to_multiset() == rows_of_scripts(scripts@, features@).to_multiset(),
        is_sorted(result@),
{
    let mut result: Vec<Feature> = Vec::new();
    let mut s: usize = 0;
    proof {
        assert(rows(result@) =~= rows_of_scripts(scripts@.subrange(0, 0), features@));
    }
    while s < scripts.len()
        invariant
            s <= scripts.len(),
            forall|i: int|
                0 <= i < scripts.len() ==> script_fits(
                    #[trigger] scripts@[i],
                    features.len() as int,
                ),
            rows(result@) == rows_of_scripts(scripts@.subrange(0, s as int), features@),
        decreases scripts.len() - s,
    {
        let script = &scripts[s];
        let ghost start = rows(result@);
        proof {
            assert(script_fits(scripts@[s as int], features.len() as int));
        }
        match &script.default_lang_sys {
            Some(indices) => {
                push_rows(&mut result, script.tag, Tag(DEFAULT_LANG), indices, features);
            },
            None => {
                proof {
                    assert(rows(result@) =~= start + Seq::<FeatureRow>::empty());
                }
            },
        }
        let ghost with_default = rows(result@);
        let mut l: usize = 0;
        proof {
            assert(rows(result@) =~= with_default + rows_of_lang_systems(
                script.tag,
                script.lang_systems@.subrange(0, 0),
                features@,
            ));
        }
        while l < script.lang_systems.len()
            invariant
                l <= script.lang_systems.len(),
                script_fits(*script, features.len() as int),
                rows(result@) == with_default + rows_of_lang_systems(
                    script.tag,
                    script.lang_systems@.subrange(0, l as int),
                    features@,
                ),
            decreases script.lang_systems.len() - l,
        {
            let lang_sys = &script.lang_systems[l];
            proof {
                assert(indices_fit(
                    script.lang_systems@[l as int].feature_indices@,
                    features.len() as int,
                ));
                let upto = script.lang_systems@.subrange(0, l + 1);
                assert(upto.drop_last() == script.lang_systems@.subrange(0, l as int));
                assert(upto.last() == script.lang_systems@[l as int]);
            }
            push_rows(&mut result, script.tag, lang_sys.tag, &lang_sys.feature_indices, features);
            proof {
                assert(rows(result@) =~= with_default + rows_of_lang_systems(
                    script.tag,
                    script.lang_systems@.subrange(0, l + 1),
                    features@,
                ));
            }
            l = l + 1;
        }
        proof {
            assert(script.lang_systems@.subrange(0, l as int) == script.lang_systems@);
            let upto = scripts@.subrange(0, s + 1);
            assert(upto.drop_last() == scripts@.subrange(0, s as int));
            assert(upto.last() == scripts@[s as int]);
            assert(rows(result@) =~= rows_of_scripts(upto, features@));
        }
        s = s + 1;
    }
    proof {
        assert(scripts@.subrange(0, s as int) == scripts@);
    }
    sort_features(&mut result);
    result
}

} // verus!
