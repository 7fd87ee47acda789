use audis::errors::AuditError;
use audis::event::Event;
use audis::index::AuditLog;
use audis::plan::{
    event_key, log_watch_keys, plan_log, plan_prune, prune_watch_keys, ref_count_key,
    registry_key, StoreCmd,
};

fn id(n: usize) -> String {
    format!("event-{:04}", n)
}

fn ids(n: usize) -> Vec<String> {
    let mut v: Vec<String> = vec![];
    for i in 0..n {
        v.push(id(i));
    }
    v
}

#[test]
fn it_indexes_across_multiple_subjects() {
    let mut c = AuditLog::new();

    let id1 = id(1);
    c.log(&Event {
        id: id1.to_string(),
        data: "{id1 data}".to_string(),
        subjects: vec!["system".to_string(), "user:42".to_string()],
    })
    .unwrap();

    let log = c.retrieve("system");
    assert_eq!(log.len(), 1);
    assert_eq!(log[0].id, id1);

    let log = c.retrieve("user:42");
    assert_eq!(log.len(), 1);
    assert_eq!(log[0].id, id1);

    let log = c.retrieve("enoent");
    assert_eq!(log.len(), 0);
}

#[test]
fn it_inserts_audit_events_in_order() {
    let mut c = AuditLog::new();

    let ids = ids(3);
    let subj = vec!["all".to_string()];

    let log = c.retrieve(&subj[0]);
    assert_eq!(log.len(), 0);

    for id in &ids {
        c.log(&Event {
            id: id.to_string(),
            data: format!("[{} data]", id),
            subjects: subj.clone(),
        })
        .unwrap();
    }

    let log = c.retrieve(&subj[0]);
    assert_eq!(log.len(), 3);
    assert_eq!(log[0].id, ids[0]);
    assert_eq!(log[1].id, ids[1]);
    assert_eq!(log[2].id, ids[2]);
}

#[test]
fn it_truncates_log_indices() {
    let mut c = AuditLog::new();

    let ids = ids(3);
    let subj = vec!["all".to_string()];

    let log = c.retrieve(&subj[0]);
    assert_eq!(log.len(), 0);

    for id in &ids {
        c.log(&Event {
            id: id.to_string(),
            data: format!("[{} data]", id),
            subjects: subj.clone(),
        })
        .unwrap();
    }

    let log = c.retrieve(&subj[0]);
    assert_eq!(log.len(), 3);
    assert_eq!(log[0].id, ids[0]);
    assert_eq!(log[1].id, ids[1]);
    assert_eq!(log[2].id, ids[2]);

    c.truncate(&subj[0], 2).unwrap();
    let log = c.retrieve(&subj[0]);
    assert_eq!(log.len(), 2);
    assert_eq!(log[0].id, ids[1]);
    assert_eq!(log[1].id, ids[2]);
}

#[test]
fn it_purges_logs() {
    let mut c = AuditLog::new();

    let ids = ids(3);
    let subj = vec!["all".to_string()];

    let log = c.retrieve(&subj[0]);
    assert_eq!(log.len(), 0);

    for id in &ids {
        c.log(&Event {
            id: id.to_string(),
            data: format!("[{} data]", id),
            subjects: subj.clone(),
        })
        .unwrap();
    }

    let log = c.retrieve(&subj[0]);
    assert_eq!(log.len(), 3);
    assert_eq!(log[0].id, ids[0]);
    assert_eq!(log[1].id, ids[1]);
    assert_eq!(log[2].id, ids[2]);

    c.purge(&subj[0], &ids[1]).unwrap();
    let log = c.retrieve(&subj[0]);
    assert_eq!(log.len(), 1);
    assert_eq!(log[0].id, ids[2]);
}

#[test]
fn relogging_an_identical_event_changes_nothing() {
    let mut c = AuditLog::new();

    let e = Event {
        id: "dup".to_string(),
        data: "payload".to_string(),
        subjects: vec!["all".to_string(), "all".to_string()],
    };
    c.log(&e).unwrap();
    c.log(&e).unwrap();

    let log = c.retrieve("all");
    assert_eq!(log.len(), 1);
    assert_eq!(log[0].id, "dup".to_string());
    assert_eq!(log[0].data, "payload".to_string());
    assert_eq!(c.subjects(), vec!["all".to_string()]);
}

#[test]
fn relogging_an_id_with_different_data_is_refused() {
    let mut c = AuditLog::new();

    c.log(&Event {
        id: "x".to_string(),
        data: "one".to_string(),
        subjects: vec!["all".to_string()],
    })
    .unwrap();

    let r = c.log(&Event {
        id: "x".to_string(),
        data: "two".to_string(),
        subjects: vec!["other".to_string()],
    });
    assert_eq!(r, Err(AuditError::DuplicateEvent));

    // the refused call left nothing behind
    let log = c.retrieve("all");
    assert_eq!(log.len(), 1);
    assert_eq!(log[0].data, "one".to_string());
    assert_eq!(c.retrieve("other").len(), 0);
    assert_eq!(c.subjects(), vec!["all".to_string()]);
}

#[test]
fn relogging_merges_new_subjects() {
    let mut c = AuditLog::new();

    c.log(&Event {
        id: "x".to_string(),
        data: "blob".to_string(),
        subjects: vec!["a".to_string()],
    })
    .unwrap();
    c.log(&Event {
        id: "x".to_string(),
        data: "blob".to_string(),
        subjects: vec!["a".to_string(), "b".to_string()],
    })
    .unwrap();

    assert_eq!(c.retrieve("a").len(), 1);
    assert_eq!(c.retrieve("b").len(), 1);
    assert_eq!(c.subjects(), vec!["a".to_string(), "b".to_string()]);
}

#[test]
fn purge_with_unknown_boundary_reports_and_keeps_the_index() {
    let mut c = AuditLog::new();

    for i in 0..3 {
        c.log(&Event {
            id: id(i),
            data: format!("[{} data]", id(i)),
            subjects: vec!["all".to_string()],
        })
        .unwrap();
    }

    let r = c.purge("all", "nonexistent");
    assert_eq!(r, Err(AuditError::BoundaryNotFound));

    let log = c.retrieve("all");
    assert_eq!(log.len(), 3);
    assert_eq!(log[0].id, id(0));

    let r = c.purge("unknown-subject", "nonexistent");
    assert_eq!(r, Err(AuditError::BoundaryNotFound));
}

#[test]
fn truncate_collects_blobs_nothing_references() {
    let mut c = AuditLog::new();

    c.log(&Event {
        id: "x".to_string(),
        data: "one".to_string(),
        subjects: vec!["all".to_string()],
    })
    .unwrap();
    c.truncate("all", 0).unwrap();
    assert_eq!(c.retrieve("all").len(), 0);

    // the id is free again: the blob and its count were collected
    c.log(&Event {
        id: "x".to_string(),
        data: "two".to_string(),
        subjects: vec!["all".to_string()],
    })
    .unwrap();
    let log = c.retrieve("all");
    assert_eq!(log.len(), 1);
    assert_eq!(log[0].data, "two".to_string());
}

#[test]
fn truncate_keeps_blobs_other_subjects_reference() {
    let mut c = AuditLog::new();

    c.log(&Event {
        id: "x".to_string(),
        data: "shared".to_string(),
        subjects: vec!["a".to_string(), "b".to_string()],
    })
    .unwrap();
    c.truncate("a", 0).unwrap();
    assert_eq!(c.retrieve("a").len(), 0);

    // "b" still references the event, so its blob must survive
    let log = c.retrieve("b");
    assert_eq!(log.len(), 1);
    assert_eq!(log[0].data, "shared".to_string());

    // and the id still names the old content
    let r = c.log(&Event {
        id: "x".to_string(),
        data: "different".to_string(),
        subjects: vec!["c".to_string()],
    });
    assert_eq!(r, Err(AuditError::DuplicateEvent));
}

#[test]
fn truncate_keeping_more_than_present_is_a_noop() {
    let mut c = AuditLog::new();

    c.log(&Event {
        id: "x".to_string(),
        data: "blob".to_string(),
        subjects: vec!["all".to_string()],
    })
    .unwrap();
    c.truncate("all", 5).unwrap();
    assert_eq!(c.retrieve("all").len(), 1);
    c.truncate("missing", 0).unwrap();
    assert_eq!(c.retrieve("all").len(), 1);
}

#[test]
fn subjects_survive_truncation_and_purge() {
    let mut c = AuditLog::new();

    for i in 0..2 {
        c.log(&Event {
            id: id(i),
            data: format!("[{} data]", id(i)),
            subjects: vec!["kept".to_string(), "drained".to_string()],
        })
        .unwrap();
    }
    c.truncate("drained", 0).unwrap();
    c.purge("kept", &id(1)).unwrap();

    assert_eq!(c.retrieve("drained").len(), 0);
    assert_eq!(c.retrieve("kept").len(), 0);
    // the registry still knows both subjects
    assert_eq!(
        c.subjects(),
        vec!["kept".to_string(), "drained".to_string()]
    );
}

#[test]
fn reference_counts_track_the_indexing_subjects() {
    let mut c = AuditLog::new();

    assert_eq!(c.reference_count("x"), 0);
    c.log(&Event {
        id: "x".to_string(),
        data: "shared".to_string(),
        subjects: vec!["a".to_string(), "b".to_string(), "c".to_string()],
    })
    .unwrap();
    assert_eq!(c.reference_count("x"), 3);

    c.truncate("a", 0).unwrap();
    assert_eq!(c.reference_count("x"), 2);

    c.purge("b", "x").unwrap();
    assert_eq!(c.reference_count("x"), 1);

    c.truncate("c", 0).unwrap();
    assert_eq!(c.reference_count("x"), 0);
}

#[test]
fn event_well_formedness_is_checkable() {
    let good = Event {
        id: "x".to_string(),
        data: "".to_string(),
        subjects: vec!["all".to_string()],
    };
    assert!(good.check_wf());

    let no_id = Event {
        id: "".to_string(),
        data: "blob".to_string(),
        subjects: vec!["all".to_string()],
    };
    assert!(!no_id.check_wf());

    let no_subjects = Event {
        id: "x".to_string(),
        data: "blob".to_string(),
        subjects: vec![],
    };
    assert!(!no_subjects.check_wf());
}

#[test]
fn error_messages_name_each_kind() {
    assert_eq!(AuditError::ConnectionFailure.message(), "store unreachable");
    assert_eq!(
        AuditError::TransactionContention.message(),
        "transaction retries exhausted"
    );
    assert_eq!(
        AuditError::DuplicateEvent.message(),
        "duplicate event id with different data"
    );
    assert_eq!(
        AuditError::BoundaryNotFound.message(),
        "purge boundary id not found in index"
    );
    assert_eq!(
        AuditError::StoreProtocolError.message(),
        "malformed store response"
    );
}

#[test]
fn store_keys_follow_the_naming_convention() {
    assert_eq!(event_key("ae2"), "audit:ae2".to_string());
    assert_eq!(ref_count_key("ae2"), "audit:ae2:ref".to_string());
    assert_eq!(registry_key(), "subjects".to_string());
}

#[test]
fn planner_appends_once_for_a_repeated_subject() {
    let e = Event {
        id: "x".to_string(),
        data: "blob".to_string(),
        subjects: vec!["all".to_string(), "all".to_string()],
    };
    let indices: Vec<Vec<String>> = vec![vec![], vec![]];
    let cmds = plan_log(&e, None, &indices).unwrap();

    let mut pushes = 0;
    let mut increments = 0;
    for c in &cmds {
        match c {
            StoreCmd::PushBack { key, value } => {
                assert_eq!(key, "all");
                assert_eq!(value, "x");
                pushes += 1;
            }
            StoreCmd::Increment { key } => {
                assert_eq!(key, "audit:x:ref");
                increments += 1;
            }
            _ => {}
        }
    }
    // the repeated subject must not append or count the event twice
    assert_eq!(pushes, 1);
    assert_eq!(increments, 1);
}

#[test]
fn planner_skips_subjects_that_already_index_the_event() {
    let e = Event {
        id: "x".to_string(),
        data: "blob".to_string(),
        subjects: vec!["a".to_string(), "b".to_string()],
    };
    let indices: Vec<Vec<String>> = vec![vec!["x".to_string()], vec![]];
    let cmds = plan_log(&e, Some(&"blob".to_string()), &indices).unwrap();

    let mut pushes: Vec<String> = vec![];
    for c in &cmds {
        if let StoreCmd::PushBack { key, .. } = c {
            pushes.push(key.clone());
        }
    }
    assert_eq!(pushes, vec!["b".to_string()]);

    let refused = plan_log(&e, Some(&"other".to_string()), &indices);
    assert!(matches!(refused, Err(AuditError::DuplicateEvent)));
}

#[test]
fn prune_plan_deletes_only_last_references() {
    let ids = vec!["a".to_string(), "b".to_string()];
    let refs = vec![1u64, 2u64];
    let cmds = plan_prune("all", &ids, &refs, 2);

    let mut deleted: Vec<String> = vec![];
    for c in &cmds {
        if let StoreCmd::DeleteKey { key } = c {
            deleted.push(key.clone());
        }
    }
    // only the event whose count reaches zero loses its keys
    assert_eq!(
        deleted,
        vec!["audit:a".to_string(), "audit:a:ref".to_string()]
    );
}

#[test]
fn transactions_watch_every_key_they_plan_from() {
    let e = Event {
        id: "x".to_string(),
        data: "blob".to_string(),
        subjects: vec!["a".to_string(), "b".to_string()],
    };
    assert_eq!(
        log_watch_keys(&e),
        vec![
            "audit:x".to_string(),
            "audit:x:ref".to_string(),
            "subjects".to_string(),
            "a".to_string(),
            "b".to_string(),
        ]
    );

    let ids = vec!["p".to_string(), "q".to_string()];
    assert_eq!(
        prune_watch_keys("all", &ids),
        vec![
            "all".to_string(),
            "subjects".to_string(),
            "audit:p:ref".to_string(),
            "audit:p".to_string(),
            "audit:q:ref".to_string(),
            "audit:q".to_string(),
        ]
    );
}

#[test]
fn channel_capacity_defaults_when_zero() {
    assert_eq!(audis::channel_capacity(0), 100);
    assert_eq!(audis::channel_capacity(7), 7);
}
