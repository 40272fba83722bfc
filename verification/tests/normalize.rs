use attestation_service::claims::{flatten_claims, RawClaims};
use attestation_service::errors::Error;
use attestation_service::tee::TeeVariant;

fn text(s: &str) -> RawClaims {
    RawClaims::Text(s.as_bytes().to_vec())
}

fn obj(entries: Vec<(&str, RawClaims)>) -> RawClaims {
    RawClaims::Object(entries.into_iter().map(|(k, v)| (k.as_bytes().to_vec(), v)).collect())
}

fn sample_tree() -> RawClaims {
    obj(vec![
        ("measurement", text("abc123")),
        ("versions", RawClaims::List(vec![RawClaims::Num(7), RawClaims::Num(12)])),
        ("flags", obj(vec![("debug", RawClaims::Bool(false)), ("smt", RawClaims::Bool(true))])),
    ])
}

fn flat_pairs(tee: TeeVariant, raw: &RawClaims) -> Vec<(String, String)> {
    flatten_claims(tee, raw)
        .expect("tree must flatten")
        .into_iter()
        .map(|(k, v)| (String::from_utf8(k).unwrap(), String::from_utf8(v).unwrap()))
        .collect()
}

#[test]
fn flatten_prefixes_and_indexes() {
    let got = flat_pairs(TeeVariant::Sample, &sample_tree());
    let want = vec![
        ("sample.measurement".to_string(), "abc123".to_string()),
        ("sample.versions.0".to_string(), "7".to_string()),
        ("sample.versions.1".to_string(), "12".to_string()),
        ("sample.flags.debug".to_string(), "false".to_string()),
        ("sample.flags.smt".to_string(), "true".to_string()),
    ];
    assert_eq!(got, want);
}

#[test]
fn flatten_rejects_null_leaf() {
    let raw = obj(vec![("present", text("1")), ("missing", RawClaims::Null)]);
    assert_eq!(flatten_claims(TeeVariant::Sample, &raw), Err(Error::MalformedClaims));
}

#[test]
fn flatten_keys_are_unique() {
    let got = flat_pairs(TeeVariant::Sample, &sample_tree());
    for i in 0..got.len() {
        for j in i + 1..got.len() {
            assert_ne!(got[i].0, got[j].0);
        }
    }
}

#[test]
fn distinct_tees_share_no_key() {
    let a = flat_pairs(TeeVariant::Sgx, &sample_tree());
    let b = flat_pairs(TeeVariant::Tdx, &sample_tree());
    for (ka, _) in &a {
        for (kb, _) in &b {
            assert_ne!(ka, kb);
        }
    }
}

/// A re-nested view of flattened entries, for round-trip checks.
#[derive(Debug, PartialEq)]
enum Node {
    Leaf(String),
    Branch(Vec<(String, Node)>),
}

fn insert_path(node: &mut Node, path: &[&str], value: &str) {
    match node {
        Node::Branch(children) => {
            if path.len() == 1 {
                children.push((path[0].to_string(), Node::Leaf(value.to_string())));
            } else {
                if children.last().map(|(k, _)| k != path[0]).unwrap_or(true) {
                    children.push((path[0].to_string(), Node::Branch(Vec::new())));
                }
                let last = children.last_mut().unwrap();
                insert_path(&mut last.1, &path[1..], value);
            }
        }
        Node::Leaf(_) => panic!("leaf and branch share a path"),
    }
}

fn renest(pairs: &[(String, String)]) -> Node {
    let mut root = Node::Branch(Vec::new());
    for (k, v) in pairs {
        let segs: Vec<&str> = k.split('.').skip(1).collect();
        insert_path(&mut root, &segs, v);
    }
    root
}

fn erase(raw: &RawClaims) -> Node {
    match raw {
        RawClaims::Text(v) => Node::Leaf(String::from_utf8(v.clone()).unwrap()),
        RawClaims::Num(n) => Node::Leaf(format!("{n}")),
        RawClaims::Bool(b) => Node::Leaf(if *b { "true".into() } else { "false".into() }),
        RawClaims::Null => panic!("unrepresentable leaf"),
        RawClaims::List(cs) => Node::Branch(
            cs.iter().enumerate().map(|(i, c)| (format!("{i}"), erase(c))).collect(),
        ),
        RawClaims::Object(es) => Node::Branch(
            es.iter()
                .map(|(k, c)| (String::from_utf8(k.clone()).unwrap(), erase(c)))
                .collect(),
        ),
    }
}

#[test]
fn flatten_then_renest_restores_structure() {
    let tree = sample_tree();
    let pairs = flat_pairs(TeeVariant::Sample, &tree);
    assert_eq!(renest(&pairs), erase(&tree));
}

#[test]
fn flatten_then_renest_deeply_nested() {
    let tree = obj(vec![(
        "outer",
        RawClaims::List(vec![
            obj(vec![("a", RawClaims::Num(1))]),
            obj(vec![("a", RawClaims::Num(2)), ("b", text("x"))]),
        ]),
    )]);
    let pairs = flat_pairs(TeeVariant::Sample, &tree);
    assert_eq!(renest(&pairs), erase(&tree));
}
