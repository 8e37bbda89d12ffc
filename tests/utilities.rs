use ide_backend::cache::LruCache;
use ide_backend::crypto::{Aes256Gcm, DecryptError};
use ide_backend::lang::{ImagePolicy, ProjectLang};
use ide_backend::path_name::ToCow;
use ide_backend::search::{matches_lowered, project_matches, SearchQuery, SortDirection, SortOrder};
use ide_backend::settings::EditorSettings;
use ide_backend::text_search::{boyer_moore_search, kmp_search};

#[test]
fn lru_cache_evicts_least_recently_used() {
    let mut c: LruCache<i32> = LruCache::new(2);
    c.put("a".to_string(), 1);
    c.put("b".to_string(), 2);
    assert_eq!(c.get("a"), Some(&1));
    c.put("c".to_string(), 3);
    assert_eq!(c.get("b"), None);
    assert_eq!(c.get("a"), Some(&1));
    assert_eq!(c.get("c"), Some(&3));
    assert_eq!(c.len(), 2);
}

#[test]
fn lru_cache_updates_existing_key() {
    let mut c: LruCache<&str> = LruCache::new(2);
    c.put("k".to_string(), "old");
    c.put("j".to_string(), "j");
    c.put("k".to_string(), "new");
    assert_eq!(c.len(), 2);
    c.put("m".to_string(), "m");
    assert_eq!(c.get("j"), None);
    assert_eq!(c.get("k"), Some(&"new"));
}

#[test]
fn sealed_messages_open_again() {
    let key = [7u8; 32];
    let aead = Aes256Gcm::new(key);
    for len in [0usize, 1, 15, 16, 17, 40] {
        let plain: Vec<u8> = (0..len).map(|i| i as u8).collect();
        let sealed = aead.encrypt(&plain).expect("random source");
        assert_eq!(sealed.len(), 12 + len + 16);
        if len >= 16 {
            assert_ne!(&sealed[12..12 + len], plain.as_slice());
        }
        assert_eq!(aead.decrypt(&sealed), Ok(plain));
    }
}

#[test]
fn fixed_nonce_gives_fixed_output() {
    let aead = Aes256Gcm::new([1u8; 32]);
    let a = aead.encrypt_with_nonce(&[2u8; 12], b"token");
    let b = aead.encrypt_with_nonce(&[2u8; 12], b"token");
    let c = aead.encrypt_with_nonce(&[3u8; 12], b"token");
    assert_eq!(a, b);
    assert_ne!(a, c);
    assert_eq!(&a[..12], &[2u8; 12]);
    assert_ne!(&a[12..17], b"token");
}

#[test]
fn tampered_or_short_messages_are_rejected() {
    let aead = Aes256Gcm::new([9u8; 32]);
    let mut sealed = aead.encrypt(b"secret").unwrap();
    sealed[13] ^= 1;
    assert_eq!(aead.decrypt(&sealed), Err(DecryptError::InvalidTag));
    assert_eq!(aead.decrypt(&[0u8; 27]), Err(DecryptError::InvalidMessage));
    assert_eq!(aead.decrypt(&[]), Err(DecryptError::InvalidMessage));
    let other = Aes256Gcm::new([8u8; 32]);
    let sealed = aead.encrypt(b"secret").unwrap();
    assert_eq!(other.decrypt(&sealed), Err(DecryptError::InvalidTag));
}

#[test]
fn base64_sealing_is_text() {
    let aead = Aes256Gcm::new([4u8; 32]);
    let s = aead.encrypt_base64(b"abc").unwrap();
    // 12 + 3 + 16 = 31 bytes: 44 characters with padding
    assert_eq!(s.len(), 44);
    assert!(s.ends_with('='));
}

#[test]
fn language_codes_round_trip() {
    let all = [
        ProjectLang::Python,
        ProjectLang::JavaScript,
        ProjectLang::TypeScript,
        ProjectLang::Rust,
        ProjectLang::C,
        ProjectLang::CPlusPlus,
        ProjectLang::CSharp,
        ProjectLang::Bash,
        ProjectLang::Java,
    ];
    for l in all {
        assert_eq!(ProjectLang::parse(l.code()), Some(l));
        assert_eq!(ImagePolicy::standard().image_for(l), "python:3");
    }
    assert_eq!(ProjectLang::CPlusPlus.code(), "cpp");
    assert_eq!(ProjectLang::parse("go"), None);
    assert_eq!(ProjectLang::Rust.initial_file_name(), "README.md");
    assert_eq!(ProjectLang::Python.initial_file_name(), "main.py");
}

fn query(sort: Option<SortOrder>, dir: Option<SortDirection>) -> SearchQuery {
    SearchQuery { query: "x".to_string(), tags: vec![], lang: None, sort, dir }
}

#[test]
fn sort_clause_needs_order_and_direction() {
    assert_eq!(query(Some(SortOrder::Title), Some(SortDirection::Ascending)).sort_clause(), "ORDER BY p.title ASC");
    assert_eq!(query(Some(SortOrder::Likes), Some(SortDirection::Descending)).sort_clause(), "ORDER BY pi.like_count DESC");
    assert_eq!(query(Some(SortOrder::UploadTime), Some(SortDirection::Ascending)).sort_clause(), "ORDER BY p.upload_time ASC");
    assert_eq!(query(Some(SortOrder::Relevant), Some(SortDirection::Ascending)).sort_clause(), "");
    assert_eq!(query(Some(SortOrder::Title), None).sort_clause(), "");
    assert_eq!(query(None, Some(SortDirection::Descending)).sort_clause(), "");
}

#[test]
fn empty_tags_are_removed() {
    let mut q = query(None, None);
    q.tags = vec!["".to_string(), "rust".to_string(), "".to_string(), "web".to_string()];
    q.remove_empty_tags();
    assert_eq!(q.tags, vec!["rust".to_string(), "web".to_string()]);
}

#[test]
fn names_are_handed_out_as_text() {
    let n = ToCow::new("main.rs".to_string());
    assert_eq!(n.to_str(), Some("main.rs"));
    assert_eq!(n.to_string_lossy(), "main.rs");
}

#[test]
fn editor_settings_default_to_auto_save() {
    assert!(EditorSettings::default().auto_save);
}

fn check_sorted(mut v: Vec<u64>) {
    let mut expected = v.clone();
    expected.sort();
    ide_backend::sort::introsort(&mut v);
    assert_eq!(v, expected);
}

#[test]
fn introsort_sorts_all_sizes() {
    check_sorted(vec![]);
    check_sorted(vec![5]);
    check_sorted(vec![2, 1]);
    check_sorted(vec![3, 1, 2, 3, 1, 0, 9, 9, 4]);
    check_sorted((0..100).rev().collect());
    check_sorted((0..500).map(|i| (i * 7919 + 13) % 101).collect());
    check_sorted(vec![7; 40]);
    check_sorted((0..1000).map(|i| if i % 2 == 0 { i } else { 1000 - i }).collect());
}

#[test]
fn boyer_moore_finds_every_occurrence() {
    assert_eq!(boyer_moore_search(b"abracadabra", b"abra"), vec![0, 7]);
    assert_eq!(boyer_moore_search(b"aaaa", b"aa"), vec![0, 1, 2]);
    assert_eq!(boyer_moore_search(b"hello world", b"o"), vec![4, 7]);
    assert_eq!(boyer_moore_search(b"short", b"longer pattern"), Vec::<usize>::new());
    assert_eq!(boyer_moore_search(b"abc", b"d"), Vec::<usize>::new());
    assert_eq!(boyer_moore_search(b"ab", b""), vec![0, 1, 2]);
    let text = b"the cat sat on the mat with the hat";
    assert_eq!(boyer_moore_search(text, b"the"), vec![0, 15, 28]);
}

#[test]
fn image_policy_overrides_per_language() {
    let mut p = ImagePolicy::new("base:1".to_string());
    p.set(ProjectLang::Rust, "rust:1".to_string());
    p.set(ProjectLang::Java, "java:21".to_string());
    p.set(ProjectLang::Rust, "rust:2".to_string());
    assert_eq!(p.image_for(ProjectLang::Rust), "rust:2");
    assert_eq!(p.image_for(ProjectLang::Java), "java:21");
    assert_eq!(p.image_for(ProjectLang::Python), "base:1");
}

#[test]
fn kmp_finds_every_occurrence() {
    assert_eq!(kmp_search(b"abracadabra", b"abra"), vec![0, 7]);
    assert_eq!(kmp_search(b"aaaa", b"aa"), vec![0, 1, 2]);
    assert_eq!(kmp_search(b"aabaabaaab", b"aabaaab"), vec![3]);
    assert_eq!(kmp_search(b"abababab", b"abab"), vec![0, 2, 4]);
    assert_eq!(kmp_search(b"short", b"longer pattern"), Vec::<usize>::new());
    assert_eq!(kmp_search(b"", b"x"), Vec::<usize>::new());
    let text = b"the cat sat on the mat with the hat";
    assert_eq!(kmp_search(text, b"the"), boyer_moore_search(text, b"the"));
}

#[test]
fn search_filter_looks_in_title_and_readme() {
    assert!(matches_lowered("my editor", "", "edit"));
    assert!(matches_lowered("x", "a readme about sandboxes", "sandbox"));
    assert!(!matches_lowered("x", "y", "z"));
    assert!(matches_lowered("x", "y", ""));
    assert!(!matches_lowered("Hello", "", "hello"));
    assert!(project_matches("Hello World", "", "hello"));
    assert!(project_matches("x", "Uses RUST", "rust"));
    assert!(!project_matches("x", "y", "rust"));
}
