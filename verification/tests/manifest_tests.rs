use cairn::hash::digest_of;
use cairn::manifest::{InputEntry, Manifest, OutputEntry, FORMAT_VERSION};

fn entry(path: &str, content: &[u8]) -> InputEntry {
    InputEntry { path: path.to_string(), digest: digest_of(content), size: content.len() as u64 }
}

fn args(a: &[&str]) -> Vec<String> {
    a.iter().map(|x| x.to_string()).collect()
}

fn sample() -> Manifest {
    let inputs = vec![entry("in.txt", b"foobar")];
    let command = args(&["build"]);
    let key = Manifest::compute_key(&inputs, &command);
    Manifest {
        version: FORMAT_VERSION,
        producer: "cairn-rust".to_string(),
        key,
        command,
        inputs,
        outputs: vec![OutputEntry {
            path: "out.txt".to_string(),
            digest: digest_of(b"result-bytes"),
            size: 12,
        }],
    }
}

#[test]
fn key_of_known_stream() {
    // FNV-1a of "cairn-key\01\0in.txt\085944171f73967e8\06\0cmd\0build\0"
    let inputs = vec![entry("in.txt", b"foobar")];
    assert_eq!(Manifest::compute_key(&inputs, &args(&["build"])), "5c6fa4688dc53bac");
    // FNV-1a of "cairn-key\01\0cmd\0"
    assert_eq!(Manifest::compute_key(&[], &[]), "413ab3327f4c3fd3");
}

#[test]
fn key_depends_on_command_and_inputs() {
    let inputs = vec![entry("in.txt", b"foobar")];
    let k1 = Manifest::compute_key(&inputs, &args(&["build"]));
    let k2 = Manifest::compute_key(&inputs, &args(&["build", "--release"]));
    let k3 = Manifest::compute_key(&inputs, &args(&["bu", "ild"]));
    let k4 = Manifest::compute_key(&[entry("in.txt", b"foobaz")], &args(&["build"]));
    assert_ne!(k1, k2);
    assert_ne!(k1, k3);
    assert_ne!(k1, k4);
    assert_eq!(k1, Manifest::compute_key(&inputs, &args(&["build"])));
}

#[test]
fn canonical_json_bytes() {
    let m = sample();
    let expected = format!(
        "{{\"version\":1,\"producer\":\"cairn-rust\",\"key\":\"{}\",\"command\":[\"build\"],\
         \"inputs\":[{{\"path\":\"in.txt\",\"digest\":\"85944171f73967e8\",\"size\":6}}],\
         \"outputs\":[{{\"path\":\"out.txt\",\"digest\":\"0983e429e804491e\",\"size\":12}}]}}",
        m.key
    );
    assert_eq!(m.to_json(), expected);
}

#[test]
fn json_roundtrip() {
    let m = sample();
    let back = Manifest::from_json(&m.to_json()).unwrap();
    assert_eq!(back, m);
    let mut odd = sample();
    odd.command = args(&["a\"b", "\\", "line\nbreak", "é"]);
    odd.inputs.clear();
    assert_eq!(Manifest::from_json(&odd.to_json()).unwrap(), odd);
}

#[test]
fn from_json_accepts_whitespace_and_extra_fields() {
    let text = "{ \"extra\": true, \"version\": 1, \"producer\": \"cairn-go\", \"key\": \"k\",\n \
                \"command\": [], \"inputs\": [], \"outputs\": [ {\"size\": 3, \"digest\": \"d\", \"path\": \"p\"} ] }";
    let m = Manifest::from_json(text).unwrap();
    assert_eq!(m.producer, "cairn-go");
    assert_eq!(m.outputs, vec![OutputEntry { path: "p".into(), digest: "d".into(), size: 3 }]);
}

#[test]
fn from_json_errors() {
    let e = |t: &str| Manifest::from_json(t).unwrap_err();
    assert_eq!(e(""), "JSON parse error at byte 0: expected a JSON value");
    assert_eq!(e("{}"), "missing 'version'");
    assert_eq!(e("[1]"), "missing 'version'");
    assert_eq!(e("{\"version\":\"1\"}"), "missing 'version'");
    assert_eq!(e("{\"version\":1}"), "missing 'producer'");
    assert_eq!(e("{\"version\":1,\"producer\":\"p\"}"), "missing 'key'");
    let base = "{\"version\":1,\"producer\":\"p\",\"key\":\"k\"";
    assert_eq!(e(&format!("{}}}", base)), "missing 'command'");
    assert_eq!(e(&format!("{},\"command\":\"x\"}}", base)), "missing 'command'");
    assert_eq!(e(&format!("{},\"command\":[\"a\",2]}}", base)), "command arg not a string");
    assert_eq!(e(&format!("{},\"command\":[]}}", base)), "missing 'inputs'");
    assert_eq!(e(&format!("{},\"command\":[],\"inputs\":{{}}}}", base)), "expected array of entries");
    assert_eq!(e(&format!("{},\"command\":[],\"inputs\":[{{}}]}}", base)), "entry missing 'path'");
    assert_eq!(
        e(&format!("{},\"command\":[],\"inputs\":[{{\"path\":\"p\"}}]}}", base)),
        "entry missing 'digest'"
    );
    assert_eq!(
        e(&format!("{},\"command\":[],\"inputs\":[{{\"path\":\"p\",\"digest\":\"d\"}}]}}", base)),
        "entry missing 'size'"
    );
    assert_eq!(e(&format!("{},\"command\":[],\"inputs\":[]}}", base)), "missing 'outputs'");
}

#[test]
fn manifest_clone_is_equal() {
    let m = sample();
    let c = m.clone();
    assert_eq!(c, m);
    assert_eq!(c.to_json(), m.to_json());
}
