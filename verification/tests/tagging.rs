use image_tagger::catalog::LabelCatalog;
use image_tagger::errors::{InferenceError, LoadError, PreprocessError, PredictError};
use image_tagger::preprocess::{letterbox, prepare, RgbaBuffer};
use image_tagger::tagger::{
    apply_policy, candidates, filter_entries_above, select_best_rating, sort_entries_desc,
    EngineState, Predictor, TagScore, CHARACTER_FLOOR,
};
use image_tagger::threshold::{mcut_threshold, sort_scores_desc};

fn catalog_text() -> Vec<u8> {
    b"name,category\n1girl,0\nrating:safe,9\noc_hero,4\n".to_vec()
}

#[test]
fn parse_small_catalog() {
    let c = LabelCatalog::parse(&catalog_text()).unwrap();
    assert_eq!(c.tag_names.len(), 3);
    assert_eq!(c.tag_names[0], b"1girl".to_vec());
    assert_eq!(c.tag_names[1], b"rating:safe".to_vec());
    assert_eq!(c.tag_names[2], b"oc hero".to_vec());
    assert_eq!(c.general_i, vec![0]);
    assert_eq!(c.rating_i, vec![1]);
    assert_eq!(c.character_i, vec![2]);
}

#[test]
fn parse_reordered_columns_and_crlf() {
    let text = b"category,name\r\n0,snake_case\r\n".to_vec();
    let c = LabelCatalog::parse(&text).unwrap();
    assert_eq!(c.tag_names[0], b"snake case".to_vec());
    assert_eq!(c.general_i, vec![0]);
}

#[test]
fn parse_ignores_unknown_category() {
    let text = b"name,category\nartist_tag,1\n1girl,0\n".to_vec();
    let c = LabelCatalog::parse(&text).unwrap();
    assert_eq!(c.tag_names.len(), 2);
    assert!(c.rating_i.is_empty());
    assert_eq!(c.general_i, vec![1]);
    assert!(c.character_i.is_empty());
}

#[test]
fn parse_empty_source_gives_empty_catalog() {
    let c = LabelCatalog::parse(&b"".to_vec()).unwrap();
    assert_eq!(c.tag_names.len(), 0);
}

#[test]
fn parse_missing_column_is_error() {
    let text = b"name,kind\nx,0\n".to_vec();
    assert_eq!(
        LabelCatalog::parse(&text).unwrap_err(),
        LoadError::CatalogParseError
    );
}

#[test]
fn parse_bad_category_is_error() {
    let text = b"name,category\nx,abc\n".to_vec();
    assert_eq!(
        LabelCatalog::parse(&text).unwrap_err(),
        LoadError::CatalogParseError
    );
    let text = b"name,category\nx,999\n".to_vec();
    assert_eq!(
        LabelCatalog::parse(&text).unwrap_err(),
        LoadError::CatalogParseError
    );
}

#[test]
fn parse_field_count_mismatch_is_error() {
    let text = b"name,category\nx,0,extra\n".to_vec();
    assert_eq!(
        LabelCatalog::parse(&text).unwrap_err(),
        LoadError::CatalogParseError
    );
}

#[test]
fn normalization_is_idempotent_on_samples() {
    let c = LabelCatalog::parse(
        &b"name,category\n^_^,0\noc_hero,0\n+_+,0\nlong_snake_case,0\n".to_vec(),
    )
    .unwrap();
    // Normalizing already-normalized names changes nothing.
    let renorm_text = {
        let mut t = b"name,category\n".to_vec();
        for n in &c.tag_names {
            t.extend_from_slice(n);
            t.extend_from_slice(b",0\n");
        }
        t
    };
    let c2 = LabelCatalog::parse(&renorm_text).unwrap();
    assert_eq!(c.tag_names, c2.tag_names);
    assert_eq!(c.tag_names[0], b"^_^".to_vec());
    assert_eq!(c.tag_names[1], b"oc hero".to_vec());
    assert_eq!(c.tag_names[2], b"+_+".to_vec());
    assert_eq!(c.tag_names[3], b"long snake case".to_vec());
}

#[test]
fn mcut_threshold_example() {
    // scores 0.9, 0.6, 0.5, 0.1: diffs 0.3, 0.1, 0.4; the largest gap sits
    // between 0.5 and 0.1, so the cutoff is (0.5 + 0.1) / 2 = 0.3.
    let scores: Vec<u32> = vec![900000, 600000, 500000, 100000];
    assert_eq!(mcut_threshold(&scores), Some(300000));
    // Order of the input does not matter.
    let shuffled: Vec<u32> = vec![100000, 500000, 900000, 600000];
    assert_eq!(mcut_threshold(&shuffled), Some(300000));
}

#[test]
fn mcut_threshold_ties_take_first_gap() {
    // diffs 0.2, 0.2: the first largest gap wins: (0.9 + 0.7) / 2 = 0.8.
    let scores: Vec<u32> = vec![900000, 700000, 500000];
    assert_eq!(mcut_threshold(&scores), Some(800000));
}

#[test]
fn mcut_threshold_degenerate_inputs() {
    assert_eq!(mcut_threshold(&vec![]), None);
    assert_eq!(mcut_threshold(&vec![500000]), None);
}

#[test]
fn sort_scores_descending() {
    let s = sort_scores_desc(&vec![100000, 900000, 500000, 500000]);
    assert_eq!(s, vec![900000, 500000, 500000, 100000]);
}

#[test]
fn fixed_threshold_is_strict() {
    let entries = vec![
        TagScore { index: 0, score: 350000 },
        TagScore { index: 1, score: 350001 },
        TagScore { index: 2, score: 349999 },
    ];
    let kept = filter_entries_above(&entries, 350000);
    // The boundary value itself is excluded.
    assert_eq!(kept.len(), 1);
    assert_eq!(kept[0].index, 1);
}

#[test]
fn adaptive_survivors_example() {
    let entries = vec![
        TagScore { index: 0, score: 900000 },
        TagScore { index: 1, score: 600000 },
        TagScore { index: 2, score: 500000 },
        TagScore { index: 3, score: 100000 },
    ];
    let kept = apply_policy(&entries, 0, true, 0);
    let scores: Vec<u32> = kept.iter().map(|e| e.score).collect();
    assert_eq!(scores, vec![900000, 600000, 500000]);
}

#[test]
fn character_adaptive_threshold_respects_floor() {
    // Raw gap midpoint would be (0.10 + 0.01) / 2 = 0.055, far below the
    // floor of 0.15: with the floor applied nothing survives.
    let entries = vec![
        TagScore { index: 0, score: 100000 },
        TagScore { index: 1, score: 10000 },
    ];
    let kept = apply_policy(&entries, 0, true, CHARACTER_FLOOR);
    assert!(kept.is_empty());
    // Without the floor the higher score would have survived.
    let kept_unfloored = apply_policy(&entries, 0, true, 0);
    assert_eq!(kept_unfloored.len(), 1);
    assert_eq!(kept_unfloored[0].score, 100000);
}

#[test]
fn adaptive_with_fewer_than_two_scores_keeps_all() {
    let entries = vec![TagScore { index: 4, score: 20000 }];
    let kept = apply_policy(&entries, 0, true, CHARACTER_FLOOR);
    assert_eq!(kept.len(), 1);
    assert_eq!(kept[0].index, 4);
}

#[test]
fn general_sort_descending_with_catalog_tie_break() {
    let entries = vec![
        TagScore { index: 2, score: 500000 },
        TagScore { index: 5, score: 500000 },
        TagScore { index: 1, score: 700000 },
    ];
    let sorted = sort_entries_desc(&entries);
    let pairs: Vec<(usize, u32)> = sorted.iter().map(|e| (e.index, e.score)).collect();
    assert_eq!(pairs, vec![(1, 700000), (2, 500000), (5, 500000)]);
}

#[test]
fn rating_takes_maximum_first_on_ties() {
    let scores: Vec<u32> = vec![100000, 990000, 990000, 200000];
    let idx: Vec<usize> = vec![1, 2, 3];
    let p = select_best_rating(&idx, &scores);
    assert_eq!(p, 0); // position of index 1, the first of the tied maxima
    let cand = candidates(&idx, &scores);
    assert!(cand.iter().all(|e| e.score <= scores[idx[p]]));
}

#[test]
fn letterbox_centers_wide_image() {
    // A 100 by 50 image on a 100 by 100 canvas sits at vertical offset 25.
    let w = 100u32;
    let h = 50u32;
    let data = vec![7u8; (4 * w * h) as usize];
    let img = RgbaBuffer { width: w, height: h, data };
    let canvas = letterbox(&img);
    assert_eq!(canvas.width, 100);
    assert_eq!(canvas.height, 100);
    let at = |x: u32, y: u32| canvas.data[(4 * (y * 100 + x)) as usize];
    for x in 0..100 {
        assert_eq!(at(x, 24), 0); // transparent border above
        assert_eq!(at(x, 25), 7); // first image row
        assert_eq!(at(x, 74), 7); // last image row
        assert_eq!(at(x, 75), 0); // transparent border below
    }
}

#[test]
fn letterbox_centers_tall_image() {
    let img = RgbaBuffer { width: 2, height: 4, data: vec![9u8; 32] };
    let canvas = letterbox(&img);
    assert_eq!(canvas.width, 4);
    let at = |x: u32, y: u32| canvas.data[(4 * (y * 4 + x)) as usize];
    assert_eq!(at(0, 0), 0);
    assert_eq!(at(1, 0), 9);
    assert_eq!(at(2, 0), 9);
    assert_eq!(at(3, 0), 0);
}

#[test]
fn prepare_rejects_bad_images() {
    let zero = RgbaBuffer { width: 0, height: 3, data: vec![] };
    assert_eq!(prepare(&zero, 4).unwrap_err(), PreprocessError::ZeroDimension);
    let short = RgbaBuffer { width: 2, height: 2, data: vec![0u8; 7] };
    assert_eq!(prepare(&short, 4).unwrap_err(), PreprocessError::InvalidImage);
}

#[test]
fn prepare_builds_bgr_tensor() {
    // A square solid-color image resizes to the same solid color, so the
    // tensor must hold the channels reversed: blue, green, red.
    let mut data = Vec::new();
    for _ in 0..4 {
        data.extend_from_slice(&[10, 20, 30, 255]); // r, g, b, a
    }
    let img = RgbaBuffer { width: 2, height: 2, data };
    let tensor = prepare(&img, 4).unwrap();
    assert_eq!(tensor.len(), 3 * 4 * 4);
    for p in 0..16 {
        assert_eq!(tensor[3 * p], 30); // blue first
        assert_eq!(tensor[3 * p + 1], 20);
        assert_eq!(tensor[3 * p + 2], 10); // red last
    }
}

#[test]
fn predictor_state_machine() {
    let mut p = Predictor::new();
    assert_eq!(p.state, EngineState::Unloaded);
    assert!(!p.is_loaded());
    assert!(p.begin_load());
    assert!(!p.begin_load()); // a second caller must not start another load
    p.abort_load(); // a failed load returns to the retryable state
    assert_eq!(p.state, EngineState::Unloaded);
    assert!(p.begin_load());
    let c = LabelCatalog::parse(&catalog_text()).unwrap();
    p.finish_load(c, 448);
    assert!(p.is_loaded());
    assert_eq!(p.size, 448);
    assert!(!p.begin_load()); // terminal
}

#[test]
fn predict_end_to_end_fixed_thresholds() {
    let mut p = Predictor::new();
    assert!(p.begin_load());
    let c = LabelCatalog::parse(&catalog_text()).unwrap();
    p.finish_load(c, 448);
    let scores: Vec<u32> = vec![900000, 990000, 200000];
    let res = p
        .predict_from_scores(&scores, 350000, false, 850000, false)
        .unwrap();
    assert_eq!(res.rating.name, b"rating:safe".to_vec());
    assert_eq!(res.rating.score, 990000);
    assert_eq!(res.caption, b"1girl".to_vec());
    assert_eq!(res.general.len(), 1);
    assert_eq!(res.general[0].name, b"1girl".to_vec());
    assert_eq!(res.general[0].score, 900000);
    assert!(res.character.is_empty()); // 0.2 is not above 0.85
}

#[test]
fn predict_shape_mismatch() {
    let mut p = Predictor::new();
    assert!(p.begin_load());
    let c = LabelCatalog::parse(&catalog_text()).unwrap();
    p.finish_load(c, 448);
    let scores: Vec<u32> = vec![900000, 990000];
    assert_eq!(
        p.predict_from_scores(&scores, 350000, false, 850000, false)
            .unwrap_err(),
        PredictError::Inference(InferenceError::ShapeMismatch)
    );
}

#[test]
fn caption_joins_general_names() {
    let text = b"name,category\nblue_sky,0\nrating:safe,9\ncloud,0\n".to_vec();
    let mut p = Predictor::new();
    assert!(p.begin_load());
    p.finish_load(LabelCatalog::parse(&text).unwrap(), 448);
    let scores: Vec<u32> = vec![400000, 990000, 800000];
    let res = p
        .predict_from_scores(&scores, 350000, false, 850000, false)
        .unwrap();
    // Sorted descending by score: cloud before blue sky.
    assert_eq!(res.caption, b"cloud, blue sky".to_vec());
    // Nothing above the threshold gives the empty caption.
    let res2 = p
        .predict_from_scores(&vec![100000, 990000, 100000], 350000, false, 850000, false)
        .unwrap();
    assert_eq!(res2.caption, b"".to_vec());
    assert!(res2.general.is_empty());
}

#[test]
fn character_list_keeps_catalog_order() {
    let text = b"name,category\nhero_a,4\nrating:safe,9\nhero_b,4\nhero_c,4\n".to_vec();
    let mut p = Predictor::new();
    assert!(p.begin_load());
    p.finish_load(LabelCatalog::parse(&text).unwrap(), 448);
    // hero_c scores highest but must stay last; all pass the 0.85 threshold.
    let scores: Vec<u32> = vec![880000, 990000, 860000, 999999];
    let res = p
        .predict_from_scores(&scores, 350000, false, 850000, false)
        .unwrap();
    let names: Vec<Vec<u8>> = res.character.iter().map(|s| s.name.clone()).collect();
    assert_eq!(
        names,
        vec![b"hero a".to_vec(), b"hero b".to_vec(), b"hero c".to_vec()]
    );
}
