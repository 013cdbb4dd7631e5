use object_store::error::{Error, ErrorKind};
use object_store::listing::ListingEngine;

/// A backend stub with three pages: the first two carry a continuation token.
fn page(token: Option<&str>) -> (Vec<String>, Option<String>) {
    match token {
        None => (vec!["a".to_string()], Some("t1".to_string())),
        Some("t1") => (vec!["b".to_string(), "c".to_string()], Some("t2".to_string())),
        Some("t2") => (vec!["d".to_string()], None),
        Some(other) => panic!("unexpected token {}", other),
    }
}

fn pull(engine: &mut ListingEngine) -> Option<Result<Vec<String>, Error>> {
    let token = engine.next_request()?;
    Some(engine.on_response(Ok(page(token.as_deref()))))
}

#[test]
fn three_pages_then_nothing() {
    let mut engine = ListingEngine::new();
    let mut batches = Vec::new();
    for _ in 0..4 {
        if let Some(batch) = pull(&mut engine) {
            batches.push(batch.unwrap());
        }
    }
    assert_eq!(batches.len(), 3);
    assert_eq!(batches[1], vec!["b".to_string(), "c".to_string()]);
    assert!(engine.is_done());
    assert!(pull(&mut engine).is_none());
}

#[test]
fn first_request_carries_no_token() {
    let engine = ListingEngine::new();
    assert_eq!(engine.next_request(), Some(None));
}

#[test]
fn empty_token_ends_the_listing() {
    let mut engine = ListingEngine::new();
    let r = engine.on_response(Ok((1u8, Some(String::new()))));
    assert_eq!(r.unwrap(), 1);
    assert!(engine.is_done());
    assert_eq!(engine.next_request(), None);
}

#[test]
fn failure_yields_one_error_then_ends() {
    let mut engine = ListingEngine::new();
    let _ = engine.on_response(Ok((0u8, Some("t1".to_string()))));
    assert_eq!(engine.next_request(), Some(Some("t1".to_string())));
    let r = engine.on_response::<u8>(Err(Error::new(ErrorKind::PermanentClient, "denied".to_string())));
    assert_eq!(r.unwrap_err().kind, ErrorKind::PermanentClient);
    assert_eq!(engine.next_request(), None);
}
