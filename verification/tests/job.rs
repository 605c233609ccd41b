use scrtsync::config::{Config, PresetConfig};
use scrtsync::errors::SourceError;
use scrtsync::job::{new_job, Job, JobError, JobPlan, NoSourceProvidedError, Side};
use scrtsync::job::sync::{sync_step, SyncAction, SyncEvent, SyncJob, SyncState};
use scrtsync::secrets::Secrets;
use scrtsync::sources::{Source, SourceConfig};
use std::cell::Cell;
use std::rc::Rc;

fn empty_config() -> Config {
    Config { presets: vec![] }
}

fn one_preset(name: &str, from: &str, to: &str) -> Config {
    Config {
        presets: vec![
            (name.to_string(), PresetConfig { from: from.to_string(), to: to.to_string() }),
        ],
    }
}

struct CountingOrigin {
    reads: Rc<Cell<u32>>,
}

impl Source for CountingOrigin {
    fn read_secrets(&self) -> Result<Secrets, SourceError> {
        self.reads.set(self.reads.get() + 1);
        let mut s = Secrets::new();
        s.insert("k".to_string(), "v".to_string());
        Ok(s)
    }

    fn write_secrets(&self, _secrets: &Secrets) -> Result<(), SourceError> {
        Ok(())
    }
}

struct FailingTarget {
    writes: Rc<Cell<u32>>,
}

impl Source for FailingTarget {
    fn read_secrets(&self) -> Result<Secrets, SourceError> {
        Err(SourceError::Backend("target is write-only".to_string()))
    }

    fn write_secrets(&self, _secrets: &Secrets) -> Result<(), SourceError> {
        self.writes.set(self.writes.get() + 1);
        Err(SourceError::Backend("write refused".to_string()))
    }
}

struct RecordingTarget {
    seen: Rc<Cell<usize>>,
}

impl Source for RecordingTarget {
    fn read_secrets(&self) -> Result<Secrets, SourceError> {
        Ok(Secrets::new())
    }

    fn write_secrets(&self, secrets: &Secrets) -> Result<(), SourceError> {
        self.seen.set(secrets.content.len());
        Ok(())
    }
}

#[test]
fn sync_job_failure_isolation() {
    // a failing write after a successful read surfaces the failure and
    // never touches the origin again
    let reads = Rc::new(Cell::new(0));
    let writes = Rc::new(Cell::new(0));
    let job = SyncJob::new(
        Box::new(CountingOrigin { reads: reads.clone() }),
        Box::new(FailingTarget { writes: writes.clone() }),
    );

    let result = job.run();

    match result {
        Err(JobError::Write(SourceError::Backend(m))) => assert_eq!(m, "write refused"),
        _ => panic!("expected the write failure to surface"),
    }
    assert_eq!(reads.get(), 1);
    assert_eq!(writes.get(), 1);
}

#[test]
fn sync_job_passes_collection_unchanged() {
    let reads = Rc::new(Cell::new(0));
    let seen = Rc::new(Cell::new(usize::MAX));
    let job = SyncJob::new(
        Box::new(CountingOrigin { reads: reads.clone() }),
        Box::new(RecordingTarget { seen: seen.clone() }),
    );

    assert!(job.run().is_ok());
    assert_eq!(reads.get(), 1);
    assert_eq!(seen.get(), 1);
}

#[test]
fn sync_machine_walks_created_to_done() {
    let (st, act) = sync_step(SyncState::Created, SyncEvent::Started);
    assert!(matches!(st, SyncState::Reading));
    assert_eq!(act, SyncAction::Read);

    let mut s = Secrets::new();
    s.insert("a".to_string(), "b".to_string());
    let (st, act) = sync_step(st, SyncEvent::ReadOk(s));
    assert!(matches!(st, SyncState::Writing(_)));
    assert_eq!(act, SyncAction::Write);

    let (st, act) = sync_step(st, SyncEvent::WriteOk);
    assert!(matches!(st, SyncState::Done));
    assert_eq!(act, SyncAction::Stop);
}

#[test]
fn sync_machine_write_failure_is_final() {
    let (st, _) = sync_step(SyncState::Created, SyncEvent::Started);
    let (st, _) = sync_step(st, SyncEvent::ReadOk(Secrets::new()));
    let (st, act) = sync_step(
        st,
        SyncEvent::WriteFailed(SourceError::Backend("boom".to_string())),
    );
    assert!(matches!(st, SyncState::Failed(JobError::Write(_))));
    assert_eq!(act, SyncAction::Stop);

    // once failed, no event asks for anything further
    let (st, act) = sync_step(st, SyncEvent::Started);
    assert!(matches!(st, SyncState::Failed(_)));
    assert_eq!(act, SyncAction::Stop);
}

#[test]
fn init_preset_plans_init_job() {
    let plan = new_job(&empty_config(), None, None, Some("init".to_string()), true, true);
    assert!(matches!(plan, Ok(JobPlan::Init)));
}

#[test]
fn explicit_endpoints_plan_a_sync() {
    let plan = new_job(
        &empty_config(),
        Some("file://in/secrets.env".to_string()),
        Some("std://".to_string()),
        None,
        true,
        true,
    );
    match plan {
        Ok(JobPlan::Sync(SourceConfig::File(f), SourceConfig::Std(_))) => {
            assert_eq!(f.path, "in/secrets.env");
        },
        _ => panic!("expected a file-to-stream sync plan"),
    }
}

#[test]
fn piping_overrides_the_from_argument() {
    let plan = new_job(
        &empty_config(),
        Some("file://in/secrets.env".to_string()),
        Some("file://out/secrets.env".to_string()),
        None,
        false,  // stdin is piped
        true,
    );
    match plan {
        Ok(JobPlan::Sync(SourceConfig::Std(_), SourceConfig::File(f))) => {
            assert_eq!(f.path, "out/secrets.env");
        },
        _ => panic!("expected a stream-to-file sync plan"),
    }
}

#[test]
fn preset_supplies_missing_endpoints() {
    let config = one_preset("deploy", "file://in/a.env", "k8s://prod/app");
    let plan = new_job(&config, None, None, Some("deploy".to_string()), true, true);
    match plan {
        Ok(JobPlan::Sync(SourceConfig::File(f), SourceConfig::K8s(k))) => {
            assert_eq!(f.path, "in/a.env");
            assert_eq!(k.context, "prod");
            assert_eq!(k.secret_name, "app");
        },
        _ => panic!("expected the preset's sync plan"),
    }
}

#[test]
fn no_source_names_the_missing_side() {
    let plan = new_job(&empty_config(), None, None, None, true, true);
    match plan {
        Err(JobError::NoSource(e)) => {
            assert_eq!(e.field, "from");
            assert_eq!(
                e.message(),
                "unable to determine source, provide either `--from` or a preset"
            );
        },
        _ => panic!("expected a no-source error"),
    }

    let plan = new_job(
        &empty_config(),
        Some("std://".to_string()),
        None,
        None,
        true,
        true,
    );
    match plan {
        Err(JobError::NoSource(e)) => assert_eq!(e.field, "to"),
        _ => panic!("expected a no-source error for the target"),
    }
}

#[test]
fn construction_failure_names_the_side() {
    let plan = new_job(
        &empty_config(),
        Some("ftp://host/x".to_string()),
        Some("std://".to_string()),
        None,
        true,
        true,
    );
    match plan {
        Err(JobError::Construction(side, SourceError::UnsupportedScheme(s))) => {
            assert_eq!(side, Side::Origin);
            assert_eq!(s, "ftp");
        },
        _ => panic!("expected an origin construction error"),
    }
}

#[test]
fn job_error_messages_name_the_stage() {
    let read = JobError::Read(SourceError::Backend("no file".to_string()));
    assert_eq!(read.message(), "Unable to read secrets: no file");
    let write = JobError::Write(SourceError::Backend("no api".to_string()));
    assert_eq!(write.message(), "Unable to write secrets: no api");
    let build = JobError::Construction(
        Side::Target,
        SourceError::Construction("Vault URL missing host".to_string()),
    );
    assert_eq!(build.message(), "could not build target source: Vault URL missing host");
    let none = JobError::NoSource(NoSourceProvidedError::new("to"));
    assert_eq!(none.message(), "unable to determine source, provide either `--to` or a preset");
}
