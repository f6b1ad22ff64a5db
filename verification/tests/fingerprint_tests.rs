use jotx::fingerprint::{QueryFingerprint, Temporal, extract_keywords, extract_temporal};

#[test]
fn test_fingerprint_similarity() {
    // Near-identical embeddings mean a cosine of 1.0 (1000 scaled); the
    // keyword sets and temporal buckets agree, so the score is high.
    let embedding1: Vec<u32> = vec![0.1f32.to_bits(); 384];
    let embedding2: Vec<u32> = vec![0.1f32.to_bits(); 384];

    let fp1 = QueryFingerprint::new("ssh yesterday", embedding1);
    let fp2 = QueryFingerprint::new("show me ssh from yesterday", embedding2);

    let similarity = fp1.similarity(&fp2, 1000);
    assert!(similarity > 800);
}

#[test]
fn zero_cosine_contributes_nothing() {
    // A zero-norm embedding on either side enters as a cosine of 0: the
    // score is exactly the keyword and temporal parts, never an undefined
    // value.
    let fp1 = QueryFingerprint::new("ssh yesterday", Vec::new());
    let fp2 = QueryFingerprint::new("show me ssh from yesterday", Vec::new());
    let s = fp1.similarity(&fp2, 0);
    // Keywords agree ({ssh, yesterday}): Jaccard 1000, weighted 300; the
    // temporal buckets agree: 100; the embedding part adds 0.
    assert_eq!(s, 400);
}

#[test]
fn keywords_drop_stop_words_and_short_words() {
    let kws = extract_keywords("show me the git log");
    let kws: Vec<Vec<u8>> = kws;
    assert_eq!(kws.len(), 2);
    assert!(kws.contains(&b"git".to_vec()));
    assert!(kws.contains(&b"log".to_vec()));
}

#[test]
fn temporal_literals_recognized() {
    assert_eq!(extract_temporal("what did i do yesterday"), Some(Temporal::Yesterday));
    assert_eq!(extract_temporal("builds from today"), Some(Temporal::Today));
    assert_eq!(extract_temporal("deploys last week"), Some(Temporal::LastWeek));
    assert_eq!(extract_temporal("commits last month"), Some(Temporal::LastMonth));
    assert_eq!(extract_temporal("list files"), None);
}
