use std::path::{Path, PathBuf};

use notizli::account::{delete_token, load_token, save_token, Settings, SettingsFile, Stored};
use notizli::ebml::WebmError;
use notizli::paths::{FilePath, Folder};
use notizli::store::{
    backoff_secs, create, create_at, free_id, id_of, list, now_unix, prune_logs, recover, FileStep, Meta, Recovery, Status, Store,
};
use notizli::webm::{DiskWrite, WebmWriter};

fn on_disk(f: &Folder) -> PathBuf {
    match &f.inside {
        Some(name) => Path::new(&f.path).join(name),
        None => PathBuf::from(&f.path),
    }
}

const SECOND: i128 = 1_000_000_000;

/// The store's folders, in memory: the names of files, and the metadata by id.
struct Disk {
    store: Store,
    unsent: Vec<String>,
    logs: Vec<String>,
    metas: Vec<Meta>,
}

impl Disk {
    fn new() -> Disk {
        Disk { store: Store::open("data"), unsent: Vec::new(), logs: Vec::new(), metas: Vec::new() }
    }

    fn save(&mut self, m: &Meta) {
        let name = self.store.meta_path(&m.id).name;
        if !self.unsent.contains(&name) {
            self.unsent.push(name);
        }
        self.metas.retain(|x| x.id != m.id);
        self.metas.push(m.clone());
    }

    fn create(&mut self, title: &str, started_ns: i128) -> Meta {
        let m = create(title, started_ns, &self.unsent).unwrap();
        self.save(&m);
        m
    }

    fn get(&self, id: &str) -> Option<Meta> {
        let name = self.store.meta_path(id).name;
        if !self.unsent.contains(&name) {
            return None;
        }
        self.metas.iter().find(|m| m.id == id).cloned()
    }

    fn list(&self) -> Vec<Meta> {
        list(self.unsent.iter().filter_map(|n| id_of(n)).filter_map(|id| self.get(&id)).collect())
    }

    fn run(&mut self, steps: Vec<FileStep>) {
        for s in steps {
            match s {
                FileStep::Move { from, to } => {
                    assert_eq!((on_disk(&from.folder), on_disk(&to.folder)), (Path::new("data").join("unsent"), Path::new("data").join("logs")));
                    self.unsent.retain(|n| *n != from.name);
                    self.logs.push(to.name);
                }
                FileStep::PruneLogs => {
                    let gone = prune_logs(&self.logs);
                    self.logs.retain(|n| !gone.contains(n));
                }
                FileStep::Delete { path, missing_ok } => {
                    assert!(missing_ok || self.unsent.contains(&path.name), "{}", path.name);
                    self.unsent.retain(|n| *n != path.name);
                }
            }
        }
    }
}

#[test]
fn lifecycle() {
    let mut s = Disk::new();
    let t = 1_790_000_000 * SECOND;
    let mut a = s.create("Weekly", t);
    let b = s.create("Second", t);
    assert_ne!(a.id, b.id);
    assert_eq!(a.started_at, "2026-09-21T14:13:20Z");
    s.unsent.push(s.store.audio_path(&a.id).name);
    s.unsent.push(s.store.health_path(&a.id).name);
    a.status = Status::Ready;
    s.save(&a);
    assert_eq!(s.list().len(), 2);
    assert_eq!(s.get(&a.id).unwrap().status, Status::Ready);
    let steps = s.store.accepted(&a.id, true);
    s.run(steps);
    assert_eq!(s.list().len(), 1);
    assert_eq!(s.logs, vec![format!("{}.health.json", a.id)]);
    let steps = s.store.discard(&b.id);
    s.run(steps);
    assert!(s.list().is_empty());
    assert!(s.unsent.is_empty());
}

#[test]
fn backoff_grows_and_caps() {
    assert_eq!(backoff_secs(0), 0);
    assert_eq!(backoff_secs(1), 60);
    assert_eq!(backoff_secs(50), 3_600);
}

#[test]
fn the_pauses_are_those_of_the_table() {
    let all: Vec<u64> = (0..8).map(backoff_secs).collect();
    assert_eq!(all, vec![0, 60, 120, 300, 600, 1_800, 3_600, 3_600]);
    assert_eq!(now_unix(-5), 0);
    assert_eq!(now_unix(1_790_000_000), 1_790_000_000);
}

#[test]
fn recovers_an_interrupted_recording() {
    let mut s = Disk::new();
    let meta = s.create("Crashed", 1_790_000_000 * SECOND);
    let mut w = WebmWriter::create(1, 312, 20, "test");
    let mut disk = w.bytes().clone();
    for i in 0..250u64 {
        if let Some(DiskWrite::Append(b)) = w.write_packet(i * 20, &[0xF8, 0xFF, 0xFE]) {
            disk.extend(b);
        }
    }
    std::mem::forget(w); // the app died here
    let empty = s.create("Nothing", 1_790_000_000 * SECOND);

    let mut rec = Vec::new();
    for m in s.list() {
        let file: &[u8] = if m.id == meta.id { &disk } else { &[] };
        match recover(m, file) {
            Recovery::Queue(m, fix) => {
                assert!(fix.is_some());
                s.save(&m);
                rec.push(m);
            }
            Recovery::Drop(m) => {
                let steps = s.store.discard(&m.id);
                s.run(steps);
            }
        }
    }
    assert_eq!(rec.len(), 1);
    assert_eq!(rec[0].id, meta.id);
    assert_eq!(rec[0].duration_ms, 4_000);
    assert!(rec[0].recovered);
    assert_eq!(s.get(&meta.id).unwrap().status, Status::Ready);
    assert!(s.get(&empty.id).is_none(), "an empty interrupted recording is dropped");
    assert_eq!(rec[0].size, disk.len() as u64);
}

#[test]
fn a_recovered_recording_has_the_size_of_its_file() {
    let mut file = vec![0x1A, 0x45, 0xDF, 0xA3, 0x80];
    file.extend([0x18, 0x53, 0x80, 0x67, 0x01, 0xFF, 0xFF, 0xFF, 0xFF, 0xFF, 0xFF, 0xFF]);
    file.extend([0x1F, 0x43, 0xB6, 0x75, 0x8A, 0xE7, 0x81, 0, 0xA3, 0x85, 0x81, 0, 0, 0x80, 0xFC]);
    let none: Vec<String> = Vec::new();

    // Half a cluster at the end is cut off.
    let mut cut = file.clone();
    cut.extend([0x1F, 0x43, 0xB6, 0x75, 0x8A, 0xE7]);
    match recover(create("x", 0, &none).unwrap(), &cut) {
        Recovery::Queue(m, Some(fix)) => assert_eq!((m.size, m.duration_ms, fix.keep), (32, 20, 32)),
        r => panic!("{r:?}"),
    }

    // The place for the duration runs past the last element: the file grows.
    let mut tail = file.clone();
    tail.extend([0x15, 0x49, 0xA9, 0x66, 0x82, 0xEC, 0x89]);
    match recover(create("x", 0, &none).unwrap(), &tail) {
        Recovery::Queue(m, Some(fix)) => {
            let (pos, bytes) = fix.duration.as_ref().unwrap();
            assert_eq!((fix.keep, *pos, bytes.len()), (39, 37, 11));
            assert_eq!((m.size, fix.len_after()), (48, 48));
        }
        r => panic!("{r:?}"),
    }
}

#[test]
fn files_are_named_by_their_recording() {
    let s = Store::open("/data/");
    assert_eq!(on_disk(s.folder()), Path::new("/data/unsent"));
    assert_eq!(on_disk(s.logs_folder()), Path::new("/data/logs"));
    let p = s.audio_path("7");
    assert_eq!((on_disk(&p.folder).as_path(), p.name.as_str()), (Path::new("/data/unsent"), "7.webm"));
    assert_eq!(s.meta_path("7").name, "7.json");
    assert_eq!(s.health_path("7").name, "7.health.json");
    assert_eq!(s.draft_path("7").name, "7.json.tmp");
    assert_eq!(on_disk(&s.log_path("7").folder), Path::new("/data/logs"));
}

#[test]
fn folders_lie_in_the_data_folder() {
    for dir in ["data", "data/", "/home/a", "a\\b", "C:\\Users\\a", ""] {
        let s = Store::open(dir);
        assert_eq!(on_disk(s.folder()), Path::new(dir).join("unsent"));
        assert_eq!(on_disk(s.logs_folder()), Path::new(dir).join("logs"));
        assert_eq!(s.folder().inside.as_deref(), Some("unsent"));
        assert_eq!(s.audio_path("7").folder, *s.folder());
    }
    let f = Folder::at("logs");
    assert_eq!((f.path.as_str(), f.inside.as_deref()), ("logs", None));
}

#[test]
fn ids_are_times_and_are_never_used_twice() {
    let none: Vec<String> = Vec::new();
    let m = create("x", 1_790_000_000 * SECOND + 120_000_000, &none).unwrap();
    assert_eq!(m.id, "20260921-141320");
    assert_eq!(m.started_at, "2026-09-21T14:13:20.12Z");
    assert_eq!((m.channel_layout.as_str(), m.mime.as_str(), m.status), ("mono", "audio/webm", Status::Recording));
    let taken = vec!["a.json".to_string(), "a-2.webm".to_string(), "a-4.json".to_string()];
    assert_eq!(free_id("a", &taken), "a-3");
    assert_eq!(free_id("b", &taken), "b");
    assert_eq!(create("x", 0, &none).unwrap().id, "19700101-000000");
    assert!(create("x", 300_000_000_000 * SECOND, &none).is_none());
    let old = create("x", -70_000_000_000 * SECOND, &none).unwrap();
    assert_eq!(old.id, "-2491015-193320");
    assert_eq!(old.started_at, "");
    let when = notizli::clock::Utc { year: 2026, month: 1, day: 2, hour: 3, minute: 4, second: 5 };
    let m = create_at("x", when, None, &none);
    assert_eq!((m.id.as_str(), m.started_at.as_str()), ("20260102-030405", ""));
}

#[test]
fn the_list_is_oldest_first() {
    let none: Vec<String> = Vec::new();
    let mut metas = Vec::new();
    for (id, started) in [("c", "2026-02"), ("b", "2026-01"), ("a", "2026-02"), ("d", "2025-12")] {
        let mut m = create("x", 0, &none).unwrap();
        m.id = id.to_string();
        m.started_at = started.to_string();
        metas.push(m);
    }
    let ids: Vec<String> = list(metas).into_iter().map(|m| m.id).collect();
    assert_eq!(ids, vec!["d", "b", "a", "c"]);
    assert_eq!(id_of("x.json").as_deref(), Some("x"));
    assert_eq!(id_of("x.health.json"), None);
    assert_eq!(id_of("x.webm"), None);
    assert_eq!(id_of("x.json.tmp"), None);
}

#[test]
fn a_second_comes_before_its_fractions() {
    let none: Vec<String> = Vec::new();
    let second = 1_790_000_000 * SECOND;
    let at = |ns: i128, id: &str| {
        let mut m = create("x", second + ns, &none).unwrap();
        m.id = id.to_string();
        m
    };
    let found = vec![at(510_000_000, "d"), at(500_000_000, "b"), at(SECOND, "e"), at(0, "a"), at(505_000_000, "c"), at(-1, "_")];
    assert_eq!(found[1].started_at, "2026-09-21T14:13:20.5Z");
    let ids: Vec<String> = list(found).into_iter().map(|m| m.id).collect();
    assert_eq!(ids, vec!["_", "a", "b", "c", "d", "e"]);
}

#[test]
fn dates_are_those_of_the_calendar() {
    let none: Vec<String> = Vec::new();
    for (s, id) in [
        (951_782_400i128, "20000229-000000"),
        (4_107_542_400, "21000301-000000"),
        (4_107_542_399, "21000228-235959"),
        (-1, "19691231-235959"),
        (-62_167_219_200, "00000101-000000"),
        (-62_167_219_201, "-0011231-235959"),
        (253_402_300_799, "99991231-235959"),
    ] {
        assert_eq!(create("x", s * SECOND, &none).unwrap().id, id);
    }
}

#[test]
fn the_last_thirty_health_reports_are_kept() {
    let mut names: Vec<String> = (0..33).map(|i| format!("202601{i:02}-000000.health.json")).collect();
    names.push("notizli.log".to_string());
    let mut gone = prune_logs(&names);
    gone.sort();
    assert_eq!(gone, names[..3].to_vec());
    assert!(prune_logs(&names[3..]).is_empty());
    // Of two in one second, the first goes first.
    let mut names: Vec<String> = (0..29).map(|i| format!("202602{i:02}-000000.health.json")).collect();
    names.push("20260101-000000-2.health.json".to_string());
    names.push("20260101-000000.health.json".to_string());
    assert_eq!(prune_logs(&names), vec!["20260101-000000.health.json".to_string()]);
}

#[test]
fn a_file_that_cannot_be_read_is_dropped() {
    let none: Vec<String> = Vec::new();
    let m = create("x", 0, &none).unwrap();
    assert!(matches!(recover(m, b"not a recording"), Recovery::Drop(_)));
    assert_eq!(WebmError::NotWebm.message(), "not a WebM file");
}

#[test]
fn extensions_are_replaced() {
    let name = |n: &str, e: &str| FilePath::new("d", n).with_extension(e).name;
    assert_eq!(name("a.webm", "health.json"), "a.health.json");
    assert_eq!(name("a.b.webm", "x"), "a.b.x");
    assert_eq!(name("a", "x"), "a.x");
    assert_eq!(name(".hidden", "x"), ".hidden.x");
    assert_eq!(name("..", "x"), "..");
    assert_eq!(name("", "x"), "");
    assert_eq!(FilePath::new("d", "a.webm").extension().as_deref(), Some("webm"));
    assert_eq!(FilePath::new("d", "a.").extension().as_deref(), Some(""));
    assert_eq!(FilePath::new("d", ".a").extension(), None);
    assert_eq!(FilePath::new("d", "a").extension(), None);
    for n in ["a.webm", "a", ".a", "a.", "a.b.c"] {
        assert_eq!(name(n, "x"), std::path::Path::new(n).with_extension("x").to_str().unwrap());
    }
}

#[test]
fn settings_are_kept_in_the_data_folder() {
    let f = SettingsFile::new("data");
    assert_eq!((f.0.folder.path.as_str(), f.0.name.as_str()), ("data", "settings.json"));
    assert_eq!(f.draft().name, "settings.json.tmp");
    let s = SettingsFile::load(None);
    assert!(s.paired_email.is_none() && s.mic_device.is_none());
    let s = SettingsFile::load(Some(Settings { mic_device: Some("m".to_string()), ..Settings::default() }));
    assert_eq!(s.mic_device.as_deref(), Some("m"));
}

#[test]
fn a_saved_token_is_loaded_again() {
    let c = save_token("tok");
    assert_eq!((c.service.as_str(), c.user.as_str(), c.password.as_str()), ("ch.notizli.recorder", "device-token", "tok"));
    assert_eq!(load_token(Stored::Password(c.password)), Ok(Some("tok".to_string())));
    assert_eq!(load_token(Stored::Password(String::new())), Ok(None));
    assert_eq!(load_token(Stored::NoEntry), Ok(None));
    assert_eq!(load_token(Stored::Failed("locked".to_string())), Err("locked".to_string()));
    assert_eq!(delete_token(Stored::NoEntry), Ok(()));
    assert_eq!(delete_token(Stored::Password(String::new())), Ok(()));
    assert_eq!(delete_token(Stored::Failed("locked".to_string())), Err("locked".to_string()));
}
