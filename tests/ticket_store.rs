use std::sync::{Arc, Mutex};

use ticket_auth::auth::{ctx_from_request, mw_ctx_resolver};
use ticket_auth::token::parse_token;
use ticket_auth::{Ctx, Error, ModelController, Ticket, TicketForCreate};

fn new_store() -> ModelController {
    ModelController::new().unwrap()
}

fn create(mc: &mut ModelController, user: u64, title: &str) -> Ticket {
    mc.create(Ctx::new(user), TicketForCreate { title: title.to_string() }).unwrap()
}

fn listed(mc: &ModelController) -> Vec<(u64, u64, String)> {
    mc.list_tickets(Ctx::new(0))
        .unwrap()
        .into_iter()
        .map(|t| (t.id, t.cid, t.title))
        .collect()
}

#[test]
fn new_store_is_empty() {
    assert!(listed(&new_store()).is_empty());
}

#[test]
fn sequential_creates_give_ids_in_order() {
    let mut mc = new_store();
    for n in 0..5u64 {
        let t = create(&mut mc, 10 + n, &format!("t{n}"));
        assert_eq!(t.id, n);
        assert_eq!(t.cid, 10 + n);
        assert_eq!(t.title, format!("t{n}"));
    }
    let want: Vec<(u64, u64, String)> = (0..5u64).map(|n| (n, 10 + n, format!("t{n}"))).collect();
    assert_eq!(listed(&mc), want);
}

#[test]
fn delete_missing_id_fails_and_changes_nothing() {
    let mut mc = new_store();
    create(&mut mc, 1, "a");
    let before = listed(&mc);
    assert_eq!(mc.delete(Ctx::new(1), 1).unwrap_err(), Error::TicketDeleteFailIdNotFound { id: 1 });
    assert_eq!(
        mc.delete(Ctx::new(1), u64::MAX).unwrap_err(),
        Error::TicketDeleteFailIdNotFound { id: u64::MAX }
    );
    assert_eq!(listed(&mc), before);
}

#[test]
fn delete_empties_slot_for_good() {
    let mut mc = new_store();
    create(&mut mc, 1, "a");
    create(&mut mc, 2, "b");
    create(&mut mc, 3, "c");
    let gone = mc.delete(Ctx::new(9), 1).unwrap();
    assert_eq!((gone.id, gone.cid, gone.title.as_str()), (1, 2, "b"));
    assert_eq!(listed(&mc), vec![(0, 1, "a".to_string()), (2, 3, "c".to_string())]);
    assert_eq!(mc.delete(Ctx::new(9), 1).unwrap_err(), Error::TicketDeleteFailIdNotFound { id: 1 });
    let next = create(&mut mc, 4, "d");
    assert_eq!(next.id, 3);
    assert_eq!(listed(&mc).len(), 3);
}

#[test]
fn shared_creates_receive_unique_ids() {
    let shared = Arc::new(Mutex::new(new_store()));
    create(&mut shared.lock().unwrap(), 0, "before");
    let handles: Vec<Arc<Mutex<ModelController>>> = (0..4).map(|_| Arc::clone(&shared)).collect();
    let mut ids = Vec::new();
    for round in 0..25u64 {
        for (caller, handle) in handles.iter().enumerate() {
            let t = create(&mut handle.lock().unwrap(), caller as u64, &format!("r{round}"));
            ids.push(t.id);
        }
    }
    let mut sorted = ids.clone();
    sorted.sort();
    sorted.dedup();
    assert_eq!(sorted.len(), 100);
    assert_eq!(listed(&shared.lock().unwrap()).len(), 101);
}

#[test]
fn end_to_end_ticket_flow() {
    assert_eq!(parse_token("user-42.2099-01-01.sig").unwrap().0, 42);
    assert_eq!(parse_token("bogus"), Err(Error::AuthFailTokenWrongFormat));
    let out = mw_ctx_resolver(Some("user-42.2099-01-01.sig"));
    let ctx = ctx_from_request(Some(out.resolution)).unwrap();
    assert_eq!(ctx.user_id(), 42);

    let mut mc = new_store();
    mc.create(ctx, TicketForCreate { title: "fix bug".to_string() }).unwrap();
    assert_eq!(listed(&mc), vec![(0, 42, "fix bug".to_string())]);
    mc.delete(ctx, 0).unwrap();
    assert!(listed(&mc).is_empty());
    assert_eq!(mc.delete(ctx, 0).unwrap_err(), Error::TicketDeleteFailIdNotFound { id: 0 });
}
