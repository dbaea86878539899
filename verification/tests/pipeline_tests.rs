use storage_service::IoErrorKind;
use storage_service::StoreError;
use storage_service::classify_read;
use storage_service::classify_write;
use storage_service::record::Record;
use storage_service::store::LoadEvent;
use storage_service::store::LoadTask;
use storage_service::store::SaveEvent;
use storage_service::store::SaveTask;
use storage_service::store::Storable;
use storage_service::store::encode_then_decode;
use storage_service::store::load_from_read;
use storage_service::store::load_task_step;
use storage_service::store::save_commit;
use storage_service::store::save_task_step;

#[test]
fn round_trip() {
    let record = Record {
        name: "Bob".to_string(),
        value: 25,
    };
    let loaded = encode_then_decode(&record).unwrap();
    assert_eq!(loaded, record);
}

#[test]
fn round_trip_through_file() {
    let runtime = tokio::runtime::Builder::new_multi_thread()
        .enable_all()
        .build()
        .unwrap();
    let file = tempfile::NamedTempFile::new().unwrap();
    let path = file.path().to_path_buf();

    let record = Record {
        name: "on disk".to_string(),
        value: 4711,
    };
    let content = record.encode().unwrap();

    let read_back = runtime.block_on(async {
        tokio::fs::write(&path, &content).await.unwrap();
        tokio::fs::read_to_string(&path).await.unwrap()
    });

    let loaded: Record = load_from_read(Ok(read_back)).unwrap();
    assert_eq!(loaded, record);
}

#[test]
fn overwrite_idempotent() {
    let record = Record {
        name: "same".to_string(),
        value: 9,
    };
    let mut file = record.encode().unwrap();
    let once = file.clone();
    file = record.encode().unwrap();
    assert_eq!(file, once);
    let loaded = Record::decode(&file).unwrap();
    assert_eq!(loaded, record);
}

#[test]
fn truncation_on_overwrite() {
    let small = Record {
        name: "s".to_string(),
        value: 1,
    };
    let large = Record {
        name: "a much longer name than before".to_string(),
        value: 123456789,
    };
    let mut file = large.encode().unwrap();
    file = small.encode().unwrap();
    assert_eq!(file, "{\"name\":\"s\",\"value\":1}");
    assert_eq!(file.len(), small.encode().unwrap().len());
    let loaded = Record::decode(&file).unwrap();
    assert_eq!(loaded, small);
}

#[test]
fn missing_file_not_found() {
    let outcome: Result<Record, StoreError> = load_from_read(Err(IoErrorKind::NotFound));
    assert_eq!(outcome, Err(StoreError::NotFound));
}

#[test]
fn error_classification() {
    assert_eq!(classify_read(IoErrorKind::NotFound), StoreError::NotFound);
    assert_eq!(
        classify_read(IoErrorKind::PermissionDenied),
        StoreError::PermissionOrAccess
    );
    assert_eq!(classify_read(IoErrorKind::InvalidData), StoreError::DecodeFailure);
    assert_eq!(classify_read(IoErrorKind::Other), StoreError::IoFailure);
    assert_eq!(classify_write(IoErrorKind::NotFound), StoreError::NotFound);
    assert_eq!(
        classify_write(IoErrorKind::PermissionDenied),
        StoreError::PermissionOrAccess
    );
    assert_eq!(classify_write(IoErrorKind::InvalidData), StoreError::IoFailure);
    assert_eq!(classify_write(IoErrorKind::Other), StoreError::IoFailure);
}

#[test]
fn save_commit_outcomes() {
    assert_eq!(save_commit(Ok(())), Ok(()));
    assert_eq!(
        save_commit(Err(IoErrorKind::PermissionDenied)),
        Err(StoreError::PermissionOrAccess)
    );
    assert_eq!(save_commit(Err(IoErrorKind::Other)), Err(StoreError::IoFailure));
}

#[test]
fn modes_agree_on_success() {
    let record = Record {
        name: "both ways".to_string(),
        value: -17,
    };

    // blocking: encode, write, commit
    let mut file: Option<String> = None;
    let blocking = match record.encode() {
        Ok(text) => {
            file = Some(text);
            save_commit(Ok(()))
        }
        Err(e) => Err(e),
    };

    // non-blocking: the same results drive the phases
    let state = save_task_step(SaveTask::Encoding, SaveEvent::Encoded(record.encode()));
    let state = match state {
        SaveTask::Writing(text) => {
            assert_eq!(Some(&text), file.as_ref());
            save_task_step(SaveTask::Writing(text), SaveEvent::Wrote(Ok(())))
        }
        other => other,
    };
    match state {
        SaveTask::Done(outcome) => assert_eq!(outcome, blocking),
        _ => panic!("the save flow did not finish"),
    }

    // load, both ways, from the written content
    let content = file.unwrap();
    let blocking_load: Result<Record, StoreError> = load_from_read(Ok(content.clone()));
    let state = load_task_step(LoadTask::<Record>::Reading, LoadEvent::ReadFinished(Ok(content)));
    let state = match state {
        LoadTask::Decoding(text) => {
            let verdict = Record::decode(&text);
            load_task_step(LoadTask::Decoding(text), LoadEvent::DecodeFinished(verdict))
        }
        other => other,
    };
    match state {
        LoadTask::Done(outcome) => assert_eq!(outcome, blocking_load),
        _ => panic!("the load flow did not finish"),
    }
    assert_eq!(blocking_load.unwrap(), record);
}

#[test]
fn modes_agree_on_missing_file() {
    let blocking: Result<Record, StoreError> = load_from_read(Err(IoErrorKind::NotFound));
    let state: LoadTask<Record> =
        load_task_step(LoadTask::Reading, LoadEvent::ReadFinished(Err(IoErrorKind::NotFound)));
    match state {
        LoadTask::Done(outcome) => assert_eq!(outcome, blocking),
        _ => panic!("a failed read must finish the flow at once"),
    }
    assert_eq!(blocking, Err(StoreError::NotFound));
}

#[test]
fn encode_failure_stops_save_before_write() {
    let state = save_task_step(
        SaveTask::Encoding,
        SaveEvent::Encoded(Err(StoreError::EncodeFailure)),
    );
    match state {
        SaveTask::Done(outcome) => assert_eq!(outcome, Err(StoreError::EncodeFailure)),
        _ => panic!("an encode failure must finish the flow at once"),
    }
}
