use memory_search::daemon::{turn, Begin, Daemon, Landed, Poll, Served, Turn};
use memory_search::index::{Index, Reindex};
use memory_search::links::LinkGraph;
use memory_search::stamp::EPOCH;
use memory_search::store::{StoreEntry, Unreadable};

fn found(name: &str, raw: &str) -> StoreEntry {
    StoreEntry::Found {
        name: name.as_bytes().to_vec(),
        raw: Some(raw.to_owned()),
    }
}

fn store() -> Vec<StoreEntry> {
    vec![found("a.md", "---\ndescription: about a\n---\nay\n"), found("b.md", "bee [[a]]\n")]
}

fn broken() -> Vec<StoreEntry> {
    vec![StoreEntry::Found {
        name: b"a.md".to_vec(),
        raw: None,
    }]
}

fn fresh() -> Daemon {
    let graph = match LinkGraph::build(&vec![]) {
        Ok(g) => g,
        Err(_) => panic!("an empty store has links"),
    };
    Daemon::new(Served {
        index: Index::new(),
        graph,
        stamp: EPOCH,
    })
}

fn work(d: &mut Daemon) -> &mut Reindex {
    match d.pending.as_mut() {
        Some(p) => &mut p.work,
        None => panic!("no pass is under way"),
    }
}

fn finish(d: &mut Daemon) {
    let w = work(d);
    while !w.is_done() {
        w.record(&vec![vec![1, 2]]);
    }
}

#[test]
fn a_pass_is_put_in_place() {
    let mut d = fresh();
    assert!(!d.is_busy());
    assert_eq!(d.look(100), Begin::Cold);
    assert_eq!(d.start(100, 7, &store(), None), Ok(2));
    assert!(d.is_busy());
    assert_eq!(d.look(100), Begin::Rest);
    finish(&mut d);
    assert!(d.to_write().is_some());
    assert_eq!(
        d.land(true, Some(&store())),
        Ok(Landed {
            started: 7,
            restarts: 0
        })
    );
    assert!(!d.is_busy());
    assert_eq!(d.served.stamp, 100);
    assert_eq!(d.served.index.chunks.len(), 2);
    assert_eq!(d.served.graph.descriptions.len(), 2);
    assert_eq!(d.look(100), Begin::Rest);
    assert!(!d.served.is_stale(100));
    assert!(d.served.is_stale(101));
    assert_eq!(d.look(101), Begin::Cold);
}

#[test]
fn an_overtaken_pass_is_given_up_and_replaced() {
    let mut d = fresh();
    assert_eq!(d.look(100), Begin::Cold);
    assert_eq!(d.start(100, 7, &store(), None), Ok(2));
    work(&mut d).record(&vec![vec![5]]);
    assert_eq!(d.look(101), Begin::Warm);
    assert!(!d.is_busy());
    // What was embedded comes along, and so does the clock.
    assert_eq!(d.start(101, 50, &store(), None), Ok(1));
    assert!(d.carried.is_none());
    finish(&mut d);
    let _ = d.to_write();
    assert_eq!(
        d.land(true, Some(&store())),
        Ok(Landed {
            started: 7,
            restarts: 1
        })
    );
    assert_eq!(d.served.stamp, 101);
    assert_eq!(d.served.index.embeddings, vec![vec![5], vec![1, 2]]);
}

#[test]
fn a_failed_start_is_tried_again() {
    let mut d = fresh();
    assert_eq!(d.look(100), Begin::Cold);
    assert_eq!(d.start(100, 7, &broken(), None), Err(Unreadable { entry: 0 }));
    assert!(!d.is_busy());
    assert_eq!(d.look(100), Begin::Cold);
    assert_eq!(d.start(100, 7, &store(), None), Ok(2));
    work(&mut d).record(&vec![vec![5]]);
    assert_eq!(d.look(101), Begin::Warm);
    assert_eq!(d.start(101, 8, &broken(), None), Err(Unreadable { entry: 0 }));
    assert!(d.carried.is_some());
    // Even a store that looks old again is picked up.
    assert_eq!(d.look(0), Begin::Warm);
    assert_eq!(d.start(102, 9, &store(), None), Ok(1));
    assert!(d.carried.is_none());
}

#[test]
fn what_cannot_be_written_is_not_served() {
    let mut d = fresh();
    assert_eq!(d.look(100), Begin::Cold);
    assert_eq!(d.start(100, 7, &store(), None), Ok(2));
    finish(&mut d);
    assert!(d.land(false, Some(&store())).is_err());
    assert!(!d.is_busy());
    assert_eq!(d.served.stamp, EPOCH);
    assert!(d.served.index.chunks.is_empty());
    assert_eq!(d.look(100), Begin::Cold);
}

#[test]
fn without_its_links_a_pass_does_not_count() {
    for listed in [None, Some(vec![StoreEntry::Lost])] {
        let mut d = fresh();
        assert_eq!(d.look(100), Begin::Cold);
        assert_eq!(d.start(100, 7, &store(), None), Ok(2));
        finish(&mut d);
        match d.land(true, listed.as_ref()) {
            Ok(_) => panic!("it counted"),
            Err(e) => {
                assert_eq!(e.index, None);
                assert_eq!(e.links, listed.as_ref().map(|_| Unreadable { entry: 0 }));
            }
        }
        // The previous index goes on serving, and the stamp has it tried again.
        assert!(!d.is_busy());
        assert!(d.served.index.chunks.is_empty());
        assert!(d.served.index.embeddings.is_empty());
        assert_eq!(d.served.graph.descriptions.len(), 0);
        assert_eq!(d.served.stamp, EPOCH);
        assert_eq!(d.look(100), Begin::Cold);
    }
}

#[test]
fn a_failed_commit_keeps_what_was_served() {
    let mut d = fresh();
    assert_eq!(d.look(100), Begin::Cold);
    assert_eq!(d.start(100, 7, &store(), None), Ok(2));
    finish(&mut d);
    assert!(d.land(true, Some(&store())).is_ok());
    assert_eq!(d.look(200), Begin::Cold);
    assert_eq!(d.start(200, 8, &vec![found("c.md", "sea\n")], None), Ok(1));
    finish(&mut d);
    assert!(d.land(true, Some(&vec![StoreEntry::Lost])).is_err());
    let files: Vec<&str> = d.served.index.chunks.iter().map(|c| c.file.as_str()).collect();
    assert_eq!(files, vec!["a.md", "b.md"]);
    assert_eq!(d.served.index.embeddings.len(), 2);
    assert_eq!(d.served.graph.descriptions.len(), 2);
    assert_eq!(d.served.stamp, 100);
    assert_eq!(d.look(200), Begin::Cold);
}

#[test]
fn unfinished_work_does_not_land() {
    let mut d = fresh();
    assert_eq!(d.look(100), Begin::Cold);
    assert_eq!(d.start(100, 7, &store(), None), Ok(2));
    assert!(d.to_write().is_none());
    match d.land(true, Some(&store())) {
        Ok(_) => panic!("it landed"),
        Err(e) => assert!(e.index.is_some() && e.links.is_none()),
    }
    assert!(d.served.index.chunks.is_empty());
}

#[test]
fn a_waiting_client_comes_first() {
    assert_eq!(turn(Poll::Client, true), Turn::Serve);
    assert_eq!(turn(Poll::Client, false), Turn::Serve);
    assert_eq!(turn(Poll::Nobody, true), Turn::Work);
    assert_eq!(turn(Poll::Nobody, false), Turn::Wait);
    assert_eq!(turn(Poll::Gone, true), Turn::Stop);
    assert_eq!(turn(Poll::Gone, false), Turn::Stop);
}
