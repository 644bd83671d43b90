use c2pa_stamping::json::Json;
use c2pa_stamping::manifest::{read_clock_for, restamp};
use c2pa_stamping::reply::Reply;
use c2pa_stamping::signing::{after_signing, file_signed, get_signer_context, sign_image};
use c2pa_stamping::signing::{load_signer_context, read_back, temporary_names, AfterSigning};
use c2pa_stamping::signing::{Inspection, LoadError, SignError, SignOutcome, SignStep};
use c2pa_stamping::signing::SignerContext;

const MANIFEST: &str = r#"{
    "title": "generated",
    "assertions": [
        {"label": "c2pa.actions", "data": {"actions": [
            {"action": "c2pa.created", "when": "never"},
            {"action": "c2pa.edited", "when": "kept"},
            {"action": "c2pa.created"},
            {"when": "", "action": "c2pa.created"}
        ]}},
        {"label": "c2pa.other", "data": {"actions": [{"action": "c2pa.created", "when": "kept"}]}},
        {"label": "c2pa.actions", "data": {"actions": [{"action": "c2pa.created", "when": 7}]}}
    ]
}"#;

fn stamped_manifest(a: &str, b: &str, c: &str) -> String {
    format!(
        "{{\"title\":\"generated\",\"assertions\":[\
         {{\"label\":\"c2pa.actions\",\"data\":{{\"actions\":[\
         {{\"action\":\"c2pa.created\",\"when\":{a}}},\
         {{\"action\":\"c2pa.edited\",\"when\":\"kept\"}},\
         {{\"action\":\"c2pa.created\"}},\
         {{\"when\":{b},\"action\":\"c2pa.created\"}}]}}}},\
         {{\"label\":\"c2pa.other\",\"data\":{{\"actions\":[\
         {{\"action\":\"c2pa.created\",\"when\":\"kept\"}}]}}}},\
         {{\"label\":\"c2pa.actions\",\"data\":{{\"actions\":[\
         {{\"action\":\"c2pa.created\",\"when\":{c}}}]}}}}]}}"
    )
}

fn pem(label: &str, der: &[u8]) -> Vec<u8> {
    let b64 = base64::Engine::encode(&base64::engine::general_purpose::STANDARD, der);
    let mut text = format!("-----BEGIN {label}-----\n");
    for line in b64.as_bytes().chunks(64) {
        text.push_str(std::str::from_utf8(line).unwrap());
        text.push('\n');
    }
    text.push_str(&format!("-----END {label}-----\n"));
    text.into_bytes()
}

/// A key for ES256, whose secret number is all ones.
fn private_key() -> Vec<u8> {
    let mut der: Vec<u8> = vec![
        0x30, 0x41, 0x02, 0x01, 0x00, 0x30, 0x13, 0x06, 0x07, 0x2A, 0x86, 0x48, 0xCE, 0x3D, 0x02,
        0x01, 0x06, 0x08, 0x2A, 0x86, 0x48, 0xCE, 0x3D, 0x03, 0x01, 0x07, 0x04, 0x27, 0x30, 0x25,
        0x02, 0x01, 0x01, 0x04, 0x20,
    ];
    der.extend_from_slice(&[1; 32]);
    pem("PRIVATE KEY", &der)
}

fn certificate() -> Vec<u8> {
    pem("CERTIFICATE", b"a certificate")
}

fn context_of(manifest: &str) -> SignerContext {
    context_with(manifest, private_key(), certificate())
}

fn context_with(manifest: &str, private_key: Vec<u8>, certificate: Vec<u8>) -> SignerContext {
    let loaded: Result<SignerContext, LoadError<()>> = load_signer_context(
        Ok(manifest.as_bytes().to_vec()),
        Ok(private_key),
        Ok(certificate),
    );
    match loaded {
        Ok(context) => context,
        Err(error) => panic!("{error:?}"),
    }
}

fn texts(times: &[&str]) -> Vec<String> {
    times.iter().map(|time| time.to_string()).collect()
}

#[test]
fn times_of_creation_are_put_in() {
    let context = context_of(MANIFEST);
    assert_eq!(
        context.manifest_json_at(&texts(&["a", "b", "c"])),
        stamped_manifest("\"a\"", "\"b\"", "\"c\"")
    );
}

#[test]
fn missing_times_leave_the_rest() {
    let context = context_of(MANIFEST);
    assert_eq!(
        context.manifest_json_at(&texts(&["a"])),
        stamped_manifest("\"a\"", "\"\"", "7")
    );
    assert_eq!(
        context.manifest_json_at(&[].to_vec()),
        stamped_manifest("\"never\"", "\"\"", "7")
    );
}

#[test]
fn last_times_stay() {
    let mut manifest = Json::from_str(MANIFEST).unwrap();
    restamp(&mut manifest, &texts(&["x", "y"]));
    restamp(&mut manifest, &texts(&["a", "b", "c"]));
    assert_eq!(
        manifest.into_string(),
        stamped_manifest("\"a\"", "\"b\"", "\"c\"")
    );
}

#[test]
fn same_times_change_nothing() {
    let text = stamped_manifest("\"a\"", "\"b\"", "\"c\"");
    let mut manifest = Json::from_str(&text).unwrap();
    restamp(&mut manifest, &texts(&["a", "b", "c"]));
    assert_eq!(manifest.into_string(), text);
}

#[test]
fn manifests_without_times_stay() {
    for text in [
        "{}",
        "[]",
        "null",
        r#"{"assertions":{}}"#,
        r#"{"assertions":[1,{"label":"c2pa.actions"},{"label":"c2pa.actions","data":[]}]}"#,
        r#"{"assertions":[{"label":"c2pa.actions","data":{"actions":{"action":"c2pa.created"}}}]}"#,
    ] {
        let mut manifest = Json::from_str(text).unwrap();
        assert!(read_clock_for(&manifest).is_empty());
        restamp(&mut manifest, &texts(&["a"]));
        assert_eq!(manifest.into_string(), text);
    }
}

#[test]
fn the_clock_gives_times_in_utc() {
    let manifest = Json::from_str(MANIFEST).unwrap();
    let times = read_clock_for(&manifest);
    assert_eq!(times.len(), 3);
    for time in times {
        assert!(time.len() >= 25, "{time}");
        assert!(time.ends_with("+00:00"), "{time}");
        assert!(time.starts_with("2"), "{time}");
        assert_eq!(&time[4..5], "-");
        assert_eq!(&time[10..11], "T");
    }
}

#[test]
fn the_manifest_has_the_present_time() {
    let context = context_of(MANIFEST);
    let json = context.build_manifest_json();
    let manifest = Json::from_str(&json).unwrap();
    let times = read_clock_for(&manifest);
    assert_eq!(times.len(), 3);
    assert!(!json.contains("never"));
    assert_eq!(json.matches("kept").count(), 2);
    assert_eq!(json.matches("+00:00").count(), 3);
}

#[test]
fn the_first_missing_part_is_reported() {
    let good = || Ok::<Vec<u8>, u8>(b"{}".to_vec());
    assert!(matches!(
        load_signer_context(Err(1), Err(2), Err(3)),
        Err(LoadError::Manifest(1))
    ));
    assert!(matches!(
        load_signer_context(Ok(b"{".to_vec()), Err(2), Err(3)),
        Err(LoadError::ManifestSyntax(_))
    ));
    assert!(matches!(
        load_signer_context(good(), Err(2), Err(3)),
        Err(LoadError::PrivateKey(2))
    ));
    assert!(matches!(
        load_signer_context(good(), good(), Err(3)),
        Err(LoadError::Certificate(3))
    ));
    assert!(load_signer_context(good(), good(), good()).is_ok());
}

#[test]
fn what_the_parser_says_is_kept() {
    match load_signer_context::<()>(Ok(b"{\"a\" 1}".to_vec()), Err(()), Err(())) {
        Err(LoadError::ManifestSyntax(error)) => {
            assert_eq!(error.cause.to_string(), "expected `:` at line 1 column 6");
        }
        _ => panic!("the manifest is no JSON"),
    }
}

#[test]
fn nothing_is_signed_without_a_context() {
    let loaded = load_signer_context(Err("gone"), Ok(vec![]), Ok(vec![]));
    let context = get_signer_context(&loaded);
    match sign_image(context, "in", "out") {
        SignStep::Done(Err(SignError::Context(LoadError::Manifest(error)))) => {
            assert_eq!(*error, "gone");
        }
        _ => panic!("there is nothing to sign with"),
    }
}

fn inspection<'a>(context: &'a SignerContext) -> Inspection<'a, &'static str> {
    match sign_image::<_, ()>(Ok(context), "in", "out") {
        SignStep::Inspect(inspection) => {
            assert_eq!(inspection.input_path, "in");
            assert_eq!(inspection.output_path, "out");
            inspection
        }
        _ => panic!("the file is to be looked at"),
    }
}

#[test]
fn a_signed_file_is_left_alone() {
    let context = context_of(MANIFEST);
    match inspection(&context).inspected::<(), ()>(Ok(true)) {
        SignStep::Done(Ok(outcome)) => {
            assert_eq!(outcome, SignOutcome::NoChange);
        }
        _ => panic!("the file is signed already"),
    }
}

#[test]
fn an_unsigned_file_is_to_be_signed() {
    let context = context_of(r#"{"title":"a cat","format":"image/jpeg"}"#);
    match inspection(&context).inspected::<(), ()>(Ok(false)) {
        SignStep::SignFile(file) => {
            assert_eq!(file.builder.definition.title.as_deref(), Some("a cat"));
            assert_eq!(file.builder.definition.format, "image/jpeg");
            let signer = file.signer.0.as_ref();
            assert_eq!(c2pa::Signer::alg(signer), c2pa::SigningAlg::Es256);
            assert_eq!(c2pa::Signer::certs(signer).unwrap(), vec![b"a certificate".to_vec()]);
            assert!(c2pa::Signer::time_authority_url(signer).is_none());
            assert_eq!(c2pa::Signer::sign(signer, b"data").unwrap().len(), 64);
            assert_eq!(file.input_path, "in");
            assert_eq!(file.output_path, "out");
        }
        _ => panic!("the file is to be signed"),
    }
}

#[test]
fn a_file_without_a_readable_manifest_is_to_be_signed() {
    let context = context_of("{}");
    assert!(matches!(
        inspection(&context).inspected::<_, ()>(Err(c2pa::Error::JumbfNotFound)),
        SignStep::SignFile(_)
    ));
}

#[test]
fn a_refused_manifest_is_reported() {
    let context = context_of(r#"{"title":["not","a","title"]}"#);
    match inspection(&context).inspected::<(), ()>(Ok(false)) {
        SignStep::Done(Err(error)) => {
            assert!(matches!(error, SignError::Builder(_)));
            assert_eq!(error.message(), "Failed to create Builder from JSON");
        }
        _ => panic!("the manifest is no manifest"),
    }
}

#[test]
fn a_builder_decides_how_it_goes_on() {
    let context = context_of("{}");
    let refused = inspection(&context).with_builder::<()>(Err(c2pa::Error::NotFound));
    assert!(matches!(
        refused,
        SignStep::Done(Err(SignError::Builder(c2pa::Error::NotFound)))
    ));
    let built = inspection(&context).with_builder::<()>(c2pa::Builder::from_json("{}"));
    assert!(matches!(built, SignStep::SignFile(_)));
}

#[test]
fn refused_keys_are_reported() {
    for (key, chain) in [
        (b"no key".to_vec(), certificate()),
        (certificate(), certificate()),
        (private_key(), b"-----BEGIN CERTIFICATE-----\n".to_vec()),
    ] {
        let context = context_with("{}", key, chain);
        match inspection(&context).inspected::<(), ()>(Ok(false)) {
            SignStep::Done(Err(error)) => {
                assert!(matches!(error, SignError::Signer(_)));
                assert_eq!(error.message(), "Failed to create signer");
            }
            _ => panic!("the keys are no keys"),
        }
    }
}

#[test]
fn a_refused_manifest_is_reported_before_refused_keys() {
    let context = context_with(r#"{"title":7}"#, vec![], vec![]);
    assert!(matches!(
        inspection(&context).inspected::<(), ()>(Ok(false)),
        SignStep::Done(Err(SignError::Builder(_)))
    ));
    let signed: SignStep<_, ()> = inspection(&context).inspected::<(), ()>(Ok(true));
    assert!(matches!(signed, SignStep::Done(Ok(SignOutcome::NoChange))));
}

#[test]
fn what_c2pa_made_of_a_file_is_reported() {
    assert!(matches!(
        file_signed::<()>(Ok(())),
        Ok(SignOutcome::Signed)
    ));
    let error = file_signed::<()>(Err(c2pa::Error::NotFound)).unwrap_err();
    assert!(matches!(error, SignError::File(c2pa::Error::NotFound)));
    assert_eq!(error.message(), "Failed to sign file");
    let error: SignError<u8> = SignError::Context(1);
    assert_eq!(error.message(), "Signer context initialization failed");
}

#[test]
fn only_an_error_is_a_failure() {
    assert_eq!(
        after_signing(&Ok::<_, ()>(SignOutcome::Signed)),
        AfterSigning::ReadBack
    );
    assert_eq!(
        after_signing(&Ok::<_, ()>(SignOutcome::NoChange)),
        AfterSigning::Answer(Reply::NoChange)
    );
    assert_eq!(
        after_signing(&Err("broken")),
        AfterSigning::Answer(Reply::Failed)
    );
    assert_eq!(read_back(Ok::<_, ()>(vec![1, 2])), Reply::Signed(vec![1, 2]));
    assert_eq!(read_back(Err("gone")), Reply::Failed);
}

#[test]
fn temporary_files_have_the_extension() {
    let names = temporary_names("png");
    assert_eq!(names.input_prefix, "agw-c2pa-in-");
    assert_eq!(names.suffix, ".png");
    assert_eq!(names.output_prefix, "agw-c2pa-out-");
    assert_eq!(names.output_name, "signed.png");
}
