use microduck::control_owner::{ControlOwner, Owner};
use microduck::models::commit::{
    bundle_version, commit_updates, failed, needs_default, pending, updates_of, Load, Tick, Update,
};
use microduck::models::convert::{
    choose_converter, conversion_failed, watch, Found, Watch, CONVERT_MS, LOG_CHARS,
};
use microduck::models::record::{Record, Records, Version};
use microduck::models::startup::{
    check_shared, default_version, migrate, migration, normalize_default_name, refit, Naming,
    Restore,
};
use microduck::models::upload::{
    decode_chunk, parse_role, Begin, Role, Slot, DEFAULT_EPSILON, DEFAULT_POLICY_LABEL,
};
use microduck::models::{Defaults, Models, Params, Phase, Step, FRESH_MS};
use microduck::net::Net;

const ROOT: &str = "/store";
const TOKEN: &str = "0123456789abcdef";

fn defaults() -> Defaults {
    Defaults {
        locomotion: b"# locomotion".to_vec(),
        sitstand: b"# sitstand".to_vec(),
        ground_pick: b"# ground pick".to_vec(),
        kick_left: b"# kick left".to_vec(),
        kick_right: b"# kick right".to_vec(),
        roulade: b"# roulade".to_vec(),
    }
}

fn empty_store() -> Models {
    Models::new(ROOT.to_string(), Ok(Records::new()), defaults(), 0)
}

/// Seats a network and gives it the built-in consumer, as a first start does.
fn materialize(store: &mut Models, net: Net, path: &str) -> String {
    let key = store.place(net, path);
    let mut record = Record::blank();
    record.active = Some(default_version(ROOT, format!("{}-first", net.id())));
    store.put_record(&key, record);
    key
}

fn relaxed(store: &mut Models, lease: &mut ControlOwner, now_ms: u64) {
    assert!(matches!(store.tick(lease, true, true, now_ms), Tick::Nothing));
}

/// A relaxed robot that walks.
fn configured() -> (Models, ControlOwner, String) {
    let mut store = empty_store();
    let mut lease = ControlOwner::default();
    let key = materialize(&mut store, Net::Walk, "/models/original.onnx");
    relaxed(&mut store, &mut lease, 0);
    (store, lease, key)
}

/// A relaxed robot that walks and stands, with one consumer between the two.
fn configured_pair() -> (Models, ControlOwner, String, String) {
    let mut store = empty_store();
    let mut lease = ControlOwner::default();
    let walk = materialize(&mut store, Net::Walk, "/models/walk.onnx");
    let stand = materialize(&mut store, Net::Stand, "/models/stand.onnx");
    assert!(store.unshared().is_some());
    assert!(store.share(b"# locomotion", b"# locomotion"));
    relaxed(&mut store, &mut lease, 0);
    (store, lease, walk, stand)
}

fn version(id: &str) -> Version {
    Version {
        id: id.to_string(),
        name: format!("{id}.pt"),
        path: format!("{ROOT}/{id}-model.onnx"),
        policy_path: Some(format!("{ROOT}/{id}-policy.py")),
        contract: None,
    }
}

fn active<'a>(records: &'a Records, key: &str) -> &'a Version {
    records.get(key).expect("a record").active.as_ref().expect("active")
}

fn history(records: &Records, key: &str) -> Vec<String> {
    records.get(key).expect("a record").history.iter().map(|v| v.id.clone()).collect()
}

fn commit(records: &Records, key: &str, version: &Version) -> Records {
    let update = Update { key: key.to_string(), version: version.copy(), fallback: None };
    commit_updates(records, &vec![update])
}

fn bundle(model: &str, size: usize) -> Begin {
    Begin {
        slot: "walk".to_string(),
        policy_filename: None,
        policy_size: None,
        model_filename: model.to_string(),
        model_size: size,
        activation: None,
        epsilon: None,
    }
}

fn ask(store: &mut Models, lease: &mut ControlOwner, params: Params) -> Result<Step, String> {
    let on_disk = match &store.upload {
        Some(upload) => (Ok(upload.policy.received as u64), Ok(upload.model.received as u64)),
        None => (Ok(0), Ok(0)),
    };
    store.request(lease, &params, 0, TOKEN, &on_disk)
}

/// Asks for an upload and opens it, as the disk would.
fn open(store: &mut Models, lease: &mut ControlOwner, begin: Begin) {
    match ask(store, lease, Params::BeginBundle(begin)) {
        Ok(Step::Open { upload, custom, newly }) => {
            assert!(newly);
            store.begun(upload, custom);
        }
        _ => panic!("the upload must open"),
    }
}

fn chunk(token: &str, file: &str, offset: usize, hex: &str) -> Params {
    Params::BundleChunk {
        token: token.to_string(),
        file: file.to_string(),
        offset,
        hex: hex.to_string(),
    }
}

/// Asks for a chunk and stores it, as the disk would.
fn put(store: &mut Models, lease: &mut ControlOwner, params: Params) -> Result<usize, String> {
    match ask(store, lease, params)? {
        Step::Append { role, bytes, .. } => {
            store.stored(role, bytes.len());
            Ok(bytes.len())
        }
        _ => panic!("a chunk is appended"),
    }
}

#[test]
fn equal_existing_consumers_share_one_file_on_startup() {
    let (store, lease, walk, stand) = configured_pair();
    assert_eq!(
        active(&store.records, &walk).policy_path,
        active(&store.records, &stand).policy_path
    );
    assert_ne!(active(&store.records, &walk).path, active(&store.records, &stand).path);
    assert!(store.unshared().is_none());
    let status = store.status(&lease, 0);
    assert_eq!(status.slots.len(), 2);
    assert!(status.slots.iter().all(|slot| slot.shared));
}

#[test]
fn every_slot_materializes_its_own_default_consumer_semantics() {
    let built_in = defaults();
    for (net, expected) in [
        (Net::Walk, &b"# locomotion"[..]),
        (Net::Stand, b"# locomotion"),
        (Net::SitStand, b"# sitstand"),
        (Net::GroundPick, b"# ground pick"),
        (Net::KickLeft, b"# kick left"),
        (Net::KickRight, b"# kick right"),
        (Net::Roulade, b"# roulade"),
    ] {
        assert_eq!(built_in.default_policy(net).as_slice(), expected, "wrong default for {net:?}");
    }
    assert_eq!(built_in.default_policy(Net::Walk), built_in.default_policy(Net::Stand));
    assert_ne!(built_in.default_policy(Net::Walk), built_in.default_policy(Net::GroundPick));
    assert_ne!(built_in.default_policy(Net::SitStand), built_in.default_policy(Net::Roulade));
}

#[test]
fn paired_commit_is_atomic_and_shared_files_survive_history_cleanup() {
    let (mut store, mut lease, walk, stand) = configured_pair();
    let incoming = version("new-walk");
    let mut companion = active(&store.records, &stand).copy();
    let old_stand_model = companion.path.clone();
    companion.id = "new-stand-consumer".to_string();
    companion.policy_path = incoming.policy_path.clone();
    let both = vec![
        Update { key: walk.clone(), version: incoming.copy(), fallback: None },
        Update { key: stand.clone(), version: companion.copy(), fallback: None },
    ];
    // A manifest that cannot be written leaves both slots as they were.
    lease.acquire(Owner::PolicyImport).unwrap();
    assert!(store.settle(&mut lease, true, Err("disk full".to_string())).is_none());
    assert_eq!(active(&store.records, &walk).id, "walk-first");
    assert_eq!(active(&store.records, &stand).id, "stand-first");
    assert!(matches!(store.phase, Phase::Error));
    assert_eq!(lease.current(), None);

    let updated = commit_updates(&store.records, &both);
    assert_eq!(
        active(&updated, &walk).policy_path,
        active(&updated, &stand).policy_path
    );
    assert_eq!(active(&updated, &stand).path, old_stand_model);
    assert_eq!(history(&updated, &walk).len(), 1);
    assert_eq!(history(&updated, &stand).len(), 1);
    assert_eq!(active(&updated, &stand).id, "new-stand-consumer");
    store.settle(&mut lease, true, Ok(updated)).expect("the records it replaced");
    // Even if a version is pruned, files referenced by its paired slot remain alive.
    assert!(store.stale_files(&incoming).is_empty());
    assert!(!store.is_stale(&old_stand_model));
}

#[test]
fn history_keeps_two_and_rollback_survives_restart() {
    let (store, _lease, key) = configured();
    let a = version("a");
    let b = version("b");
    let c = version("c");
    let records = commit(&store.records, &key, &a);
    assert_eq!(history(&records, &key), vec!["walk-first"]);
    let records = commit(&records, &key, &b);
    let records = commit(&records, &key, &c);
    assert_eq!(history(&records, &key), vec!["b", "a"]);
    let records = commit(&records, &key, &a);
    assert_eq!(history(&records, &key), vec!["c", "b"]);
    let mut reloaded = Models::new(ROOT.to_string(), Ok(records), defaults(), 0);
    let placed = reloaded.place(Net::Walk, "/models/original.onnx");
    assert_eq!(placed, key);
    assert_eq!(reloaded.active_path(&key).as_deref(), Some(a.path.as_str()));
}

#[test]
fn resolve_migrates_every_legacy_onnx_to_the_default_two_file_policy() {
    let legacy = |id: &str, name: &str| Version {
        id: id.to_string(),
        name: name.to_string(),
        path: format!("{ROOT}/old-{id}.onnx"),
        policy_path: None,
        contract: Some("control".to_string()),
    };
    for mut old in [legacy("active", "legacy.pt"), legacy("history", "alpha_walking.onnx")] {
        let todo = migration(ROOT, &old).expect("a single file");
        assert!(todo.moved);
        let obsolete = migrate(ROOT, &mut old);
        assert_eq!(obsolete, Some(format!("{ROOT}/old-{}.onnx", old.id)));
        assert_eq!(old.name, DEFAULT_POLICY_LABEL);
        assert_eq!(old.path, todo.model);
        assert!(old.path.ends_with(&format!("{}-model.onnx", old.id)));
        assert_eq!(old.policy_path.as_deref(), Some(todo.policy.as_str()));
        assert!(todo.policy.ends_with(&format!("{}-policy.py", old.id)));
        assert_eq!(old.contract, None);
        assert!(migration(ROOT, &old).is_none(), "once is enough");
    }
}

#[test]
fn resolve_renames_an_already_migrated_default_without_model_2000() {
    let mut named = default_version(ROOT, "x".to_string());
    named.name = "默认 + model_2000.pt".to_string();
    let built_in = defaults().locomotion;
    assert_eq!(normalize_default_name(&mut named, &built_in, &built_in), Naming::Rename);
    assert_eq!(named.name, "默认");
    assert_eq!(normalize_default_name(&mut named, &built_in, &built_in), Naming::Keep);
}

#[test]
fn resolve_upgrades_a_platform_default_consumer_to_api_v2() {
    let mut outdated = default_version(ROOT, "x".to_string());
    let built_in = defaults().locomotion;
    let consumer = b"# platform default from API v1\n";
    assert_eq!(normalize_default_name(&mut outdated, consumer, &built_in), Naming::Replace);
    assert_eq!(outdated.name, "默认");
    let mut own = version("mine");
    assert_eq!(normalize_default_name(&mut own, consumer, &built_in), Naming::Keep);
    assert_eq!(own.name, "mine.pt");
}

#[test]
fn a_version_is_brought_up_to_date_once() {
    let built_in = defaults().locomotion;
    let mut old = version("legacy");
    old.path = "/elsewhere/legacy.onnx".to_string();
    old.policy_path = None;
    let fit = refit(ROOT, &mut old, &built_in, &built_in);
    assert!(fit.changed);
    assert_eq!(fit.obsolete.as_deref(), Some("/elsewhere/legacy.onnx"));
    assert_eq!(old.name, DEFAULT_POLICY_LABEL);
    assert!(old.policy_path.is_some());
    let again = refit(ROOT, &mut old, &built_in, &built_in);
    assert!(!again.changed);
    assert_eq!(again.obsolete, None);
}

#[test]
fn failed_persistence_keeps_existing_manifest() {
    let (mut store, mut lease, key) = configured();
    let records = commit(&store.records, &key, &version("a"));
    store.settle(&mut lease, false, Ok(records)).expect("replaced");
    let before = history(&store.records, &key);
    assert!(store.settle(&mut lease, false, Err("read-only".to_string())).is_none());
    assert_eq!(history(&store.records, &key), before);
    assert_eq!(active(&store.records, &key).id, "a");
    assert_eq!(store.detail, "保存失败，旧模型未改变：read-only");
}

#[test]
fn bundle_chunks_require_role_token_exact_offset_and_declared_size() {
    let (mut store, mut lease, _) = configured();
    open(&mut store, &mut lease, bundle("../../test.onnx", 2));
    let upload = store.upload.as_ref().expect("open");
    assert!(upload.model.path.starts_with("/store/upload-"));
    let token = upload.token.clone();
    assert_eq!(token, TOKEN);
    assert!(put(&mut store, &mut lease, chunk("wrong", "model", 0, "0000")).is_err());
    assert!(put(&mut store, &mut lease, chunk(&token, "unknown", 0, "00")).is_err());
    assert!(put(&mut store, &mut lease, chunk(&token, "model", 1, "00")).is_err());
    assert!(put(&mut store, &mut lease, chunk(&token, "model", 0, "000000")).is_err());
    assert!(ask(&mut store, &mut lease, Params::FinishBundle { token: token.clone() }).is_err());
    assert!(put(&mut store, &mut lease, chunk(&token, "model", 0, "00ff")).is_ok());
    assert!(put(&mut store, &mut lease, chunk(&token, "model", 0, "00ff")).is_err());
    assert!(decode_chunk("éé").is_err());
    assert!(decode_chunk(&"00".repeat(8193)).is_err());
    assert_eq!(decode_chunk("00ff").ok(), Some(vec![0, 255]));
    assert!(matches!(
        ask(&mut store, &mut lease, Params::FinishBundle { token }),
        Ok(Step::Prepare(_))
    ));
}

#[test]
fn bundle_upload_keeps_two_roles_in_one_transaction() {
    let (mut store, mut lease, _) = configured();
    let mut begin = bundle("../../model.pt", 3);
    begin.policy_filename = Some("../../policy.py".to_string());
    begin.policy_size = Some(2);
    begin.activation = Some("tanh".to_string());
    begin.epsilon = Some(1e-4f64.to_bits());
    open(&mut store, &mut lease, begin);
    assert!(put(&mut store, &mut lease, chunk(TOKEN, "policy", 0, "7079")).is_ok());
    assert!(put(&mut store, &mut lease, chunk(TOKEN, "model", 0, "000102")).is_ok());
    assert!(put(&mut store, &mut lease, chunk(TOKEN, "model", 0, "00")).is_err());
    let upload = store.upload.as_ref().expect("open");
    assert!(upload.policy.path.starts_with("/store/"));
    assert!(upload.model.path.starts_with("/store/"));
    assert_ne!(upload.policy.path, upload.model.path);
    assert!(upload.model.path.ends_with(".pt"));
    assert!(!upload.is_ready(), "weights are converted first");
    assert_eq!(upload.activation, "tanh");
    assert_eq!(f64::from_bits(upload.epsilon), 1e-4);
    assert_eq!(upload.received(), 5);
}

#[test]
fn bundle_upload_uses_a_fresh_default_policy_when_policy_is_omitted() {
    let (mut store, mut lease, _) = configured();
    open(&mut store, &mut lease, bundle("policy.pth", 3));
    let built_in = defaults();
    let upload = store.upload.as_ref().expect("open");
    assert_eq!(upload.policy.name, DEFAULT_POLICY_LABEL);
    assert_eq!(upload.policy.received, built_in.default_policy(Net::Walk).len());
    assert_eq!(upload.policy.size, built_in.default_policy(Net::Walk).len());
    assert_eq!(upload.activation, "elu");
    assert_eq!(f64::from_bits(upload.epsilon), 0.01);
    assert_eq!(upload.epsilon, DEFAULT_EPSILON);
}

#[test]
fn status_requires_fresh_motor_proof_and_corrupt_manifest_fails_closed() {
    let (mut store, mut lease, _) = configured();
    assert!(matches!(store.tick(&mut lease, false, true, 0), Tick::Nothing));
    assert!(!store.status(&lease, 0).editable);
    relaxed(&mut store, &mut lease, 0);
    assert!(store.status(&lease, FRESH_MS - 1).editable);
    assert!(!store.status(&lease, 1_000).editable);
    let nothing = (Ok(0), Ok(0));
    let begin = Params::BeginBundle(bundle("blocked.pt", 1));
    assert!(
        store.request(&mut lease, &begin, 1_000, TOKEN, &nothing).is_err(),
        "a forged request must not bypass stale feedback"
    );
    assert!(store.upload.is_none());
    assert_eq!(lease.current(), None);
    let mut broken =
        Models::new(ROOT.to_string(), Err("broken".to_string()), defaults(), 0);
    assert!(broken.load_error().is_some());
    assert!(broken.request(&mut lease, &begin, 0, TOKEN, &nothing).is_err());
    assert!(!broken.status(&lease, 0).editable);
}

#[test]
fn a_bundle_that_does_not_fit_is_refused() {
    let (mut store, mut lease, _) = configured();
    let refused = |store: &mut Models, lease: &mut ControlOwner, begin: Begin| {
        ask(store, lease, Params::BeginBundle(begin)).err().expect("must not open")
    };
    let mut unknown = bundle("x.pt", 1);
    unknown.slot = "swim".to_string();
    assert_eq!(refused(&mut store, &mut lease, unknown), "未知模型槽位");
    assert!(refused(&mut store, &mut lease, bundle("x.bin", 1)).contains(".onnx"));
    assert!(refused(&mut store, &mut lease, bundle("x.pt", 0)).contains("64 MiB"));
    let mut odd = bundle("x.pt", 1);
    odd.activation = Some("gelu".to_string());
    assert_eq!(refused(&mut store, &mut lease, odd), "不支持的激活函数");
    let mut vast = bundle("x.pt", 1);
    vast.epsilon = Some(2.0f64.to_bits());
    assert!(refused(&mut store, &mut lease, vast).contains("epsilon"));
    let mut half = bundle("x.pt", 1);
    half.policy_size = Some(3);
    assert!(refused(&mut store, &mut lease, half).contains("必须同时提供"));
    let mut shell = bundle("x.pt", 1);
    shell.policy_filename = Some("policy.sh".to_string());
    shell.policy_size = Some(3);
    assert!(refused(&mut store, &mut lease, shell).contains(".py"));
    assert_eq!(lease.current(), None, "a refusal keeps nothing");
    assert_eq!(parse_role("manifest"), None);
    assert_eq!(parse_role("policy"), Some(Role::Policy));
}

#[test]
fn a_cancelled_upload_gives_the_robot_back() {
    let (mut store, mut lease, _) = configured();
    open(&mut store, &mut lease, bundle("x.onnx", 1));
    assert_eq!(lease.current(), Some(Owner::PolicyImport));
    let cancelled = ask(&mut store, &mut lease, Params::Cancel { token: TOKEN.to_string() });
    assert!(matches!(cancelled, Ok(Step::Discard(_))));
    assert_eq!(lease.current(), None);
    assert!(store.upload.is_none());
    lease.acquire(Owner::PolicyImport).unwrap();
    failed(&mut lease, false);
    assert_eq!(lease.current(), Some(Owner::PolicyImport));
    failed(&mut lease, true);
    assert_eq!(lease.current(), None);
}

#[test]
fn a_version_is_put_in_place_only_on_a_relaxed_robot() {
    let (mut store, mut lease, key) = configured();
    let slot = Slot { key: key.clone(), path: "/models/original.onnx".to_string(), net: Net::Walk };
    let incoming = version("a");
    let load = store.prepare_version(&slot, &incoming).ok().expect("configured");
    assert!(matches!(load, Load::Alone { .. }), "there is no standing to keep in step");
    let tried = pending(slot, incoming, load, "spare".to_string(), "contract".to_string());
    lease.acquire(Owner::PolicyImport).unwrap();
    store.prepared(&mut lease, Ok(tried));
    assert!(matches!(store.phase, Phase::Pending));
    let going = match store.tick(&mut lease, true, true, 10) {
        Tick::Commit(going) => going,
        _ => panic!("relaxed and loaded"),
    };
    assert!(!needs_default(&store.records, &key));
    let updates = updates_of(&going, None, None);
    let records = commit_updates(&store.records, &updates);
    store.settle(&mut lease, false, Ok(records)).expect("replaced");
    assert_eq!(active(&store.records, &key).id, "a");
    assert_eq!(active(&store.records, &key).contract.as_deref(), Some("contract"));
    assert!(matches!(store.phase, Phase::Done));

    let slot = Slot { key, path: "/models/original.onnx".to_string(), net: Net::Walk };
    let load = store.prepare_version(&slot, &version("b")).ok().expect("configured");
    let tried = pending(slot, version("b"), load, "spare".to_string(), "contract".to_string());
    lease.acquire(Owner::PolicyImport).unwrap();
    store.prepared(&mut lease, Ok(tried));
    match store.tick(&mut lease, false, true, 20) {
        Tick::Refused(refused) => assert_eq!(refused.id, "b"),
        _ => panic!("a robot that is not relaxed"),
    }
    assert_eq!(lease.current(), None);
    assert!(matches!(store.phase, Phase::Error));
}

#[test]
fn a_rollback_names_a_version_that_is_kept() {
    let (mut store, mut lease, key) = configured();
    let records = commit(&store.records, &key, &version("a"));
    store.settle(&mut lease, false, Ok(records)).expect("replaced");
    let back = |version: &str| Params::Rollback {
        slot: "walk".to_string(),
        version: version.to_string(),
    };
    assert!(ask(&mut store, &mut lease, back("gone")).is_err());
    match ask(&mut store, &mut lease, back("walk-first")) {
        Ok(Step::Revalidate { version, .. }) => assert_eq!(version.id, "walk-first"),
        _ => panic!("it is in the history"),
    }
}

#[test]
fn a_pair_is_restored_as_one_consumer() {
    let (store, _lease, walk, stand) = configured_pair();
    let steps = store.restore_controls();
    assert_eq!(steps.len(), 1);
    match &steps[0] {
        Restore::Pair { walk_policy, stand_policy, walk: walk_model, stand: stand_model } => {
            assert_eq!(walk_policy, stand_policy);
            assert_eq!(*walk_model, active(&store.records, &walk).path);
            assert_eq!(*stand_model, active(&store.records, &stand).path);
        }
        _ => panic!("walking and standing share a consumer"),
    }
    assert!(check_shared(b"a", b"a").is_ok());
    assert!(check_shared(b"a", b"b").is_err());
}

#[test]
fn a_converter_is_given_two_minutes() {
    assert_eq!(watch(Found::Running, CONVERT_MS - 1), Watch::Wait);
    assert_eq!(watch(Found::Running, CONVERT_MS), Watch::Kill);
    assert_eq!(watch(Found::Unknown, 0), Watch::Kill);
    assert_eq!(watch(Found::Exited { success: true }, CONVERT_MS * 2), Watch::Done);
    assert_eq!(watch(Found::Exited { success: false }, 0), Watch::Failed);
    let long = conversion_failed(&"x".repeat(LOG_CHARS + 10));
    assert_eq!(long.matches('x').count(), LOG_CHARS);
}

#[test]
fn an_uploaded_bundle_becomes_a_version_of_its_own() {
    let (mut store, mut lease, _) = configured();
    open(&mut store, &mut lease, bundle("x.onnx", 1));
    let upload = store.drop_upload().expect("open");
    let made = bundle_version(ROOT, &upload);
    assert_eq!(made.id, TOKEN);
    assert_eq!(made.path, format!("{ROOT}/{TOKEN}-model.onnx"));
    assert_eq!(made.policy_path, Some(format!("{ROOT}/{TOKEN}-policy.py")));
    assert!(store.upload.is_none());
}

#[test]
fn the_converter_runs_under_the_interpreter_that_was_set() {
    assert_eq!(choose_converter(Some("/opt/py".to_string()), true), "/opt/py");
    assert_eq!(choose_converter(None, true), "/var/lib/robotd/model-python/bin/python");
    assert_eq!(choose_converter(None, false), "python3");
}
