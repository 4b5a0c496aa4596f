use cairn::hash::digest_of;
use cairn::manifest::{Manifest, OutputEntry, FORMAT_VERSION};
use cairn::store::{normalize_path, path_join, Store, VerifyReport};

fn strings(a: &[&str]) -> Vec<String> {
    a.iter().map(|x| x.to_string()).collect()
}

#[test]
fn blob_roundtrip_and_dedup() {
    let store = Store::open("cache".to_string());
    let d1 = digest_of(b"hello");
    let d2 = digest_of(b"hello");
    assert_eq!(d1, d2);
    assert_eq!(store.object_path(&d1), store.object_path(&d2));
    assert_eq!(store.object_path(&d1), "cache/objects/a4/a430d84680aabd0b");
    assert_ne!(store.object_path(&d1), store.object_path(&digest_of(b"world")));
}

#[test]
fn store_restore_and_verify() {
    let store = Store::open("cache".to_string());
    let inputs = Store::hash_inputs(&strings(&["in.txt"]), &[b"foobar".to_vec()]);
    let command = strings(&["build"]);
    let key = Manifest::compute_key(&inputs, &command);
    let outputs = store.store_outputs(&strings(&["out.txt"]), &[b"result-bytes".to_vec()]);
    let manifest = Manifest {
        version: FORMAT_VERSION,
        producer: "cairn-rust".into(),
        key: key.clone(),
        command,
        inputs,
        outputs,
    };
    let loaded = Manifest::from_json(&manifest.to_json()).unwrap();
    assert_eq!(loaded, manifest);
    assert_eq!(store.manifest_path(&key), format!("cache/manifests/{key}.json"));

    let dests = store.restore_outputs("work", &loaded, &[true]).unwrap();
    assert_eq!(dests.len(), 1);
    assert_eq!(dests, vec!["work/out.txt".to_string()]);

    let report = store.verify_manifest(&loaded, &[Some(b"result-bytes".to_vec())]);
    assert!(report.is_healthy(), "report: {report:?}");
    assert_eq!(report.ok, 1);
}

#[test]
fn normalize_path_uses_forward_slashes() {
    assert_eq!(normalize_path("a\\b\\c.txt"), "a/b/c.txt");
    assert_eq!(normalize_path("a/b"), "a/b");
    assert_eq!(normalize_path(""), "");
    assert_eq!(normalize_path(&normalize_path("x\\\\y")), "x//y");
}

#[test]
fn path_join_follows_unix_rules() {
    assert_eq!(path_join("a", "b"), "a/b");
    assert_eq!(path_join("a/", "b"), "a/b");
    assert_eq!(path_join("", "b"), "b");
    assert_eq!(path_join("a", "/abs"), "/abs");
    assert_eq!(path_join("a", ""), "a/");
}

#[test]
fn store_layout_paths() {
    let store = Store::open(".cairn-cache".to_string());
    assert_eq!(store.objects_dir(), ".cairn-cache/objects");
    assert_eq!(store.manifests_dir(), ".cairn-cache/manifests");
    assert_eq!(store.object_path("85944171f73967e8"), ".cairn-cache/objects/85/85944171f73967e8");
    assert_eq!(store.object_path("a"), ".cairn-cache/objects/a/a");
    assert_eq!(store.object_path(""), ".cairn-cache/objects/");
    assert_eq!(store.object_path("éx"), ".cairn-cache/objects/é/éx");
    assert_eq!(store.manifest_path("k"), ".cairn-cache/manifests/k.json");
}

#[test]
fn hash_inputs_sorts_and_normalizes() {
    let a = Store::hash_inputs(&strings(&["b.c", "dir\\a.c"]), &[b"B".to_vec(), b"AA".to_vec()]);
    assert_eq!(a.len(), 2);
    assert_eq!(a[0].path, "b.c");
    assert_eq!(a[1].path, "dir/a.c");
    assert_eq!(a[1].digest, digest_of(b"AA"));
    assert_eq!(a[1].size, 2);
    let b = Store::hash_inputs(&strings(&["dir/a.c", "b.c"]), &[b"AA".to_vec(), b"B".to_vec()]);
    assert_eq!(a, b);
    let cmd = strings(&["cc"]);
    assert_eq!(Manifest::compute_key(&a, &cmd), Manifest::compute_key(&b, &cmd));
    // Byte-wise order: uppercase sorts before lowercase, shorter prefixes first.
    let c = Store::hash_inputs(&strings(&["b", "B", "ab", "a"]), &[vec![], vec![], vec![], vec![]]);
    let order: Vec<&str> = c.iter().map(|e| e.path.as_str()).collect();
    assert_eq!(order, vec!["B", "a", "ab", "b"]);
}

#[test]
fn hash_inputs_is_stable_for_equal_paths() {
    let a = Store::hash_inputs(&strings(&["x\\y", "x/y"]), &[b"1".to_vec(), b"22".to_vec()]);
    assert_eq!(a[0].size, 1);
    assert_eq!(a[1].size, 2);
}

fn manifest_with_outputs(outputs: Vec<OutputEntry>) -> Manifest {
    let command = strings(&["build"]);
    let key = Manifest::compute_key(&[], &command);
    Manifest { version: 1, producer: "t".into(), key, command, inputs: vec![], outputs }
}

#[test]
fn verify_reports_missing_and_corrupt() {
    let store = Store::open("c".into());
    let outs = vec![
        OutputEntry { path: "a".into(), digest: digest_of(b"A"), size: 1 },
        OutputEntry { path: "b".into(), digest: digest_of(b"B"), size: 1 },
        OutputEntry { path: "c".into(), digest: digest_of(b"C"), size: 1 },
    ];
    let m = manifest_with_outputs(outs);
    let r = store.verify_manifest(&m, &[Some(b"A".to_vec()), None, Some(b"tampered".to_vec())]);
    assert_eq!(r.ok, 1);
    assert_eq!(r.missing, vec![digest_of(b"B")]);
    assert_eq!(r.corrupt, vec![digest_of(b"C")]);
    assert!(r.key_matches);
    assert!(!r.is_healthy());

    let mut bad_key = manifest_with_outputs(vec![]);
    bad_key.key = "0000000000000000".into();
    let r2 = store.verify_manifest(&bad_key, &[]);
    assert!(!r2.key_matches);
    assert!(!r2.is_healthy());
}

#[test]
fn healthy_report_flags() {
    let mut r = VerifyReport::default();
    assert!(!r.is_healthy());
    r.key_matches = true;
    assert!(r.is_healthy());
    r.missing.push("x".into());
    assert!(!r.is_healthy());
}

#[test]
fn restore_refuses_on_first_missing_blob() {
    let store = Store::open("c".into());
    let outs = vec![
        OutputEntry { path: "a".into(), digest: "da".into(), size: 1 },
        OutputEntry { path: "b".into(), digest: "db".into(), size: 1 },
        OutputEntry { path: "c".into(), digest: "dc".into(), size: 1 },
    ];
    let m = manifest_with_outputs(outs);
    let e = store.restore_outputs("out", &m, &[true, false, false]).unwrap_err();
    assert_eq!(e.digest, "db");
    assert_eq!(e.path, "b");
    assert_eq!(e.message(), "missing blob db for output b");
    let ok = store.restore_outputs("out/", &m, &[true, true, true]).unwrap();
    assert_eq!(ok, strings(&["out/a", "out/b", "out/c"]));
}

#[test]
fn repeated_inputs_give_the_same_key_in_any_order() {
    let c = b"int main;".to_vec();
    let d = b"void f;".to_vec();
    let a = Store::hash_inputs(
        &strings(&["a.c", "b.c", "a.c"]),
        &[c.clone(), d.clone(), c.clone()],
    );
    let b = Store::hash_inputs(
        &strings(&["a.c", "a.c", "b.c"]),
        &[c.clone(), c.clone(), d.clone()],
    );
    let e = Store::hash_inputs(&strings(&["b.c", "a.c", "a.c"]), &[d.clone(), c.clone(), c]);
    assert_eq!(a, b);
    assert_eq!(a, e);
    assert_eq!(a.len(), 3);
    let cmd = strings(&["cc", "-O2"]);
    assert_eq!(Manifest::compute_key(&a, &cmd), Manifest::compute_key(&e, &cmd));
}
