use decoded_shredstream::{judge_key, Filter, FilterError, Filters};

const SYSTEM: &str = "11111111111111111111111111111111";
const VOTE: &str = "Vote111111111111111111111111111111111111111";

fn keys(ks: &[&str]) -> Vec<String> {
    ks.iter().map(|k| k.to_string()).collect()
}

#[test]
fn new_and_all_match_everything() {
    assert_eq!(Filter::new(), Filter::all());
    assert_eq!(Filter::new(), Filter::default());
}

#[test]
fn valid_keys_are_accepted() {
    let f = Filter::new().include_keys(keys(&[SYSTEM, VOTE])).unwrap();
    let g = Filter::new().include_keys(keys(&[SYSTEM])).unwrap().include_keys(keys(&[VOTE])).unwrap();
    assert_eq!(f, g);
    assert_ne!(f, Filter::new());
    let e = Filter::new().exclude(keys(&[VOTE])).unwrap();
    let r = Filter::new().required(keys(&[VOTE])).unwrap();
    assert_ne!(e, r);
    assert_ne!(f, e);
}

#[test]
fn invalid_keys_are_refused_by_name() {
    assert_eq!(
        Filter::new().include_keys(keys(&[SYSTEM, "abc", "0OIl"])),
        Err(FilterError::InvalidKey("abc".to_string()))
    );
    assert_eq!(
        Filter::new().exclude(keys(&["0OIl"])),
        Err(FilterError::InvalidKey("0OIl".to_string()))
    );
    let too_long = "z".repeat(44);
    assert_eq!(
        Filter::new().required(keys(&[&too_long])),
        Err(FilterError::InvalidKey(too_long.clone()))
    );
    // 33 ones decode to 33 bytes
    let ones = "1".repeat(33);
    assert_eq!(
        Filter::new().include_keys(keys(&[&ones])),
        Err(FilterError::InvalidKey(ones.clone()))
    );
}

#[test]
fn judge_key_accepts_only_32_bytes() {
    assert_eq!(judge_key("k".to_string(), Some(32)), Ok("k".to_string()));
    assert_eq!(judge_key("k".to_string(), Some(31)), Err(FilterError::InvalidKey("k".to_string())));
    assert_eq!(judge_key("k".to_string(), None), Err(FilterError::InvalidKey("k".to_string())));
}

#[test]
fn a_filter_holds_at_most_1000_keys() {
    let many: Vec<String> = std::iter::repeat(SYSTEM.to_string()).take(1000).collect();
    let f = Filter::new().include_keys(many.clone()).unwrap();
    assert_eq!(
        f.clone().exclude(keys(&[VOTE])),
        Err(FilterError::TooManyKeys(String::new(), 1001))
    );
    let mut more = many.clone();
    more.push(VOTE.to_string());
    assert_eq!(
        Filter::new().required(more),
        Err(FilterError::TooManyKeys(String::new(), 1001))
    );
}

#[test]
fn add_replaces_a_filter_of_the_same_name() {
    let f = Filter::new().include_keys(keys(&[SYSTEM])).unwrap();
    let fs = Filters::new().add("a".to_string(), Filter::all()).add("a".to_string(), f.clone());
    assert_eq!(fs.len(), 1);
    assert_eq!(fs, Filters::new().add("a".to_string(), f));
}

#[test]
fn order_of_adding_does_not_matter() {
    let f = Filter::new().include_keys(keys(&[SYSTEM])).unwrap();
    let one = Filters::new().add("b".to_string(), f.clone()).add("a".to_string(), Filter::all());
    let two = Filters::new().add("a".to_string(), Filter::all()).add("b".to_string(), f);
    assert_eq!(one, two);
    assert_eq!(one.len(), 2);
    assert_eq!(one.clone(), one);
}

#[test]
fn from_pairs_keeps_the_last_of_each_name() {
    let f = Filter::new().include_keys(keys(&[SYSTEM])).unwrap();
    let fs = Filters::from_pairs(vec![
        ("x".to_string(), Filter::all()),
        ("y".to_string(), Filter::all()),
        ("x".to_string(), f.clone()),
    ]);
    assert_eq!(fs.len(), 2);
    assert_eq!(fs, Filters::new().add("y".to_string(), Filter::all()).add("x".to_string(), f));
}

#[test]
fn validate_refuses_an_empty_map() {
    let fs = Filters::new();
    assert!(fs.is_empty());
    assert_eq!(fs.len(), 0);
    assert_eq!(fs.validate(), Err(FilterError::Empty));
}

#[test]
fn validate_refuses_more_than_16_filters() {
    let mut fs = Filters::new();
    for i in 0..16 {
        fs = fs.add(format!("f{i}"), Filter::all());
    }
    assert_eq!(fs.validate(), Ok(()));
    let fs = fs.add("one more".to_string(), Filter::all());
    assert_eq!(fs.len(), 17);
    assert!(!fs.is_empty());
    assert_eq!(fs.validate(), Err(FilterError::TooManyFilters(17)));
}

#[test]
fn validate_accepts_one_filter() {
    let fs = Filters::new().add("all".to_string(), Filter::all());
    assert_eq!(fs.validate(), Ok(()));
}

#[test]
fn entries_come_in_name_order() {
    let f = Filters::new()
        .add("b".to_string(), Filter::all())
        .add("a".to_string(), Filter::new())
        .add("c".to_string(), Filter::all())
        .add("a".to_string(), Filter::all());
    let names: Vec<String> = f.entries().into_iter().map(|(n, _)| n).collect();
    assert_eq!(names, vec!["a".to_string(), "b".to_string(), "c".to_string()]);
    assert_eq!(f.entries().len(), f.len());
}
