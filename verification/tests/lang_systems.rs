use fontcore::lang_systems::{get_lang_systems, Feature, FeatureRecord, LangSys, Script};
use fontcore::tag::Tag;

fn feature(feature: &[u8; 4], script: &[u8; 4], lang: &[u8; 4]) -> Feature {
    Feature {
        feature: Tag::new(feature),
        script: Tag::new(script),
        lang: Tag::new(lang),
        lookups: vec![],
    }
}

fn names(features: &[Feature]) -> Vec<(Vec<u8>, Vec<u8>, Vec<u8>, Vec<u16>)> {
    features
        .iter()
        .map(|f| {
            (
                f.feature.to_be_bytes().to_vec(),
                f.script.to_be_bytes().to_vec(),
                f.lang.to_be_bytes().to_vec(),
                f.lookups.clone(),
            )
        })
        .collect()
}

fn row(feature: &[u8; 4], script: &[u8; 4], lang: &[u8; 4], lookups: &[u16]) -> (
    Vec<u8>,
    Vec<u8>,
    Vec<u8>,
    Vec<u16>,
) {
    (feature.to_vec(), script.to_vec(), lang.to_vec(), lookups.to_vec())
}

#[test]
fn sort_key_puts_the_default_tags_first() {
    assert_eq!(feature(b"DFLT", b"dflt", b"kern").sort_key(), (0, 1, 0x6B65_726E));
    assert_eq!(feature(b"kern", b"DFLT", b"dflt").sort_key(), (0x6B65_726E, 0, 1));
    assert_eq!(feature(b"dflt", b"DFLT", b"DFLT").sort_key(), (1, 0, 0));
    let default_script = feature(b"liga", b"DFLT", b"dflt").sort_key();
    assert!(default_script < feature(b"liga", b"AAAA", b"dflt").sort_key());
    let default_lang = feature(b"liga", b"latn", b"dflt").sort_key();
    assert!(default_lang < feature(b"liga", b"latn", b"AAA ").sort_key());
}

#[test]
fn lang_systems_of_an_empty_table() {
    assert!(get_lang_systems(&vec![], &vec![]).is_empty());
    let features = vec![FeatureRecord { tag: Tag::new(b"kern"), lookups: vec![1] }];
    assert!(get_lang_systems(&vec![], &features).is_empty());
    let scripts =
        vec![Script { tag: Tag::new(b"latn"), default_lang_sys: None, lang_systems: vec![] }];
    assert!(get_lang_systems(&scripts, &features).is_empty());
}

#[test]
fn lang_systems_come_in_the_order_of_their_keys() {
    let features = vec![
        FeatureRecord { tag: Tag::new(b"liga"), lookups: vec![3, 4] },
        FeatureRecord { tag: Tag::new(b"kern"), lookups: vec![0] },
        FeatureRecord { tag: Tag::new(b"calt"), lookups: vec![] },
    ];
    let scripts = vec![
        Script {
            tag: Tag::new(b"latn"),
            default_lang_sys: Some(vec![0, 1]),
            lang_systems: vec![
                LangSys { tag: Tag::new(b"TRK "), feature_indices: vec![1] },
                LangSys { tag: Tag::new(b"DEU "), feature_indices: vec![2, 0] },
            ],
        },
        Script {
            tag: Tag::new(b"DFLT"),
            default_lang_sys: Some(vec![1]),
            lang_systems: vec![],
        },
    ];
    let result = get_lang_systems(&scripts, &features);
    assert_eq!(
        names(&result),
        vec![
            row(b"calt", b"latn", b"DEU ", &[]),
            row(b"kern", b"DFLT", b"dflt", &[0]),
            row(b"kern", b"latn", b"dflt", &[0]),
            row(b"kern", b"latn", b"TRK ", &[0]),
            row(b"liga", b"latn", b"dflt", &[3, 4]),
            row(b"liga", b"latn", b"DEU ", &[3, 4]),
        ]
    );
}

#[test]
fn lang_systems_keep_rows_that_are_equal() {
    let features = vec![FeatureRecord { tag: Tag::new(b"kern"), lookups: vec![7] }];
    let scripts = vec![Script {
        tag: Tag::new(b"cyrl"),
        default_lang_sys: None,
        lang_systems: vec![LangSys { tag: Tag::new(b"SRB "), feature_indices: vec![0, 0] }],
    }];
    let result = get_lang_systems(&scripts, &features);
    assert_eq!(names(&result), vec![row(b"kern", b"cyrl", b"SRB ", &[7]); 2]);
}
