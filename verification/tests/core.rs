use irohscii::canvas::{LineStyle, Position};
use irohscii::codec;
use irohscii::document::{Document, ShapeId, StoreError};
use irohscii::presence::{CursorActivity, PeerId, PeerPresence, PresenceManager};
use irohscii::recent_files::RecentFiles;
use irohscii::shapes::{ShapeColor, ShapeKind};
use irohscii::sync::{
    decode_frame, decode_frame4, encode_frame, encode_frame4, generate_sync_message,
    receive_sync_message, SyncState,
};
use irohscii::ticket::{decode_ticket, encode_ticket};
use irohscii::undo::UndoManager;

fn rect_at(x: i32, y: i32) -> ShapeKind {
    ShapeKind::Rectangle {
        start: Position::new(x, y),
        end: Position::new(x + 4, y + 2),
        label: None,
        color: ShapeColor::White,
    }
}

fn shape_set(doc: &Document) -> Vec<(u128, ShapeKind)> {
    let mut v: Vec<(u128, ShapeKind)> = doc
        .read_all_shapes()
        .into_iter()
        .map(|(id, k)| (id.0, k))
        .collect();
    v.sort_by_key(|e| e.0);
    v
}

fn sync_once(from: &Document, to: &mut Document) {
    let mut st = SyncState::new();
    let msg = generate_sync_message(from, &mut st).expect("state to send");
    receive_sync_message(to, &msg).expect("well-formed message");
}

#[test]
fn scenario_two_peers_converge_with_unchanged_coordinates() {
    let mut a = Document::new(1);
    let mut b = Document::new(2);
    let xa = a.add_shape(rect_at(0, 0)).unwrap();
    let yb = b.add_shape(rect_at(5, 5)).unwrap();

    // Capture both outgoing messages before either merge.
    let mut sta = SyncState::new();
    let mut stb = SyncState::new();
    let msg_a = generate_sync_message(&a, &mut sta).unwrap();
    let msg_b = generate_sync_message(&b, &mut stb).unwrap();
    receive_sync_message(&mut b, &msg_a).unwrap();
    receive_sync_message(&mut a, &msg_b).unwrap();

    let sa = shape_set(&a);
    let sb = shape_set(&b);
    assert_eq!(sa, sb);
    assert_eq!(sa.len(), 2);
    assert!(sa.iter().any(|(id, k)| *id == xa.0 && *k == rect_at(0, 0)));
    assert!(sa.iter().any(|(id, k)| *id == yb.0 && *k == rect_at(5, 5)));
}

#[test]
fn convergence_is_direction_independent() {
    let mut a = Document::new(11);
    let mut b = Document::new(22);
    a.add_shape(rect_at(1, 1)).unwrap();
    a.create_layer(String::from("ink"));
    b.add_shape(ShapeKind::Text {
        pos: Position::new(3, 3),
        content: String::from("hi"),
        color: ShapeColor::Cyan,
    })
    .unwrap();

    let mut sta = SyncState::new();
    let mut stb = SyncState::new();
    let msg_a = generate_sync_message(&a, &mut sta).unwrap();
    let msg_b = generate_sync_message(&b, &mut stb).unwrap();
    receive_sync_message(&mut b, &msg_a).unwrap();
    receive_sync_message(&mut a, &msg_b).unwrap();
    assert_eq!(shape_set(&a), shape_set(&b));
    let mut la: Vec<u128> = a.read_layer_order().iter().map(|l| l.0).collect();
    let mut lb: Vec<u128> = b.read_layer_order().iter().map(|l| l.0).collect();
    la.sort();
    lb.sort();
    assert_eq!(la, lb);
}

#[test]
fn idempotence_reapplying_a_message_changes_nothing() {
    let mut a = Document::new(1);
    let mut b = Document::new(2);
    a.add_shape(rect_at(0, 0)).unwrap();
    let mut st = SyncState::new();
    let msg = generate_sync_message(&a, &mut st).unwrap();
    receive_sync_message(&mut b, &msg).unwrap();
    let first = shape_set(&b);
    receive_sync_message(&mut b, &msg).unwrap();
    assert_eq!(first, shape_set(&b));
}

#[test]
fn corrupt_sync_message_is_rejected_without_damage() {
    let mut b = Document::new(2);
    b.add_shape(rect_at(7, 7)).unwrap();
    let before = shape_set(&b);
    let garbage = vec![0xffu8, 0x01, 0x02];
    assert_eq!(
        receive_sync_message(&mut b, &garbage),
        Err(StoreError::Corrupt)
    );
    assert_eq!(before, shape_set(&b));
}

fn sample_kinds() -> Vec<ShapeKind> {
    let p = Position::new(-3, 9);
    let q = Position::new(40, -17);
    vec![
        ShapeKind::Line {
            start: p,
            end: q,
            style: LineStyle::OrthogonalHV,
            start_connection: Some(77),
            end_connection: None,
            label: Some(String::from("wire")),
            color: ShapeColor::Red,
        },
        ShapeKind::Arrow {
            start: p,
            end: q,
            style: LineStyle::Straight,
            start_connection: None,
            end_connection: Some(123456789012345678901234567890u128),
            label: None,
            color: ShapeColor::Blue,
        },
        ShapeKind::Rectangle { start: p, end: q, label: Some(String::from("box")), color: ShapeColor::White },
        ShapeKind::DoubleBox { start: p, end: q, label: None, color: ShapeColor::Gray },
        ShapeKind::Diamond { center: p, half_width: 4, half_height: 2, label: Some(String::from("d")), color: ShapeColor::Green },
        ShapeKind::Ellipse { center: q, radius_x: 6, radius_y: 3, label: None, color: ShapeColor::Yellow },
        ShapeKind::Freehand {
            points: vec![p, q, Position::new(0, 0)],
            ch: '*',
            label: Some(String::from("scribble")),
            color: ShapeColor::Magenta,
        },
        ShapeKind::Text { pos: p, content: String::from("héllo ↓"), color: ShapeColor::Cyan },
        ShapeKind::Triangle { p1: p, p2: q, p3: Position::new(1, 2), label: None, color: ShapeColor::Black },
        ShapeKind::Parallelogram { start: p, end: q, label: None, color: ShapeColor::LightRed },
        ShapeKind::Hexagon { center: p, radius_x: 5, radius_y: 4, label: None, color: ShapeColor::LightGreen },
        ShapeKind::Trapezoid { start: p, end: q, label: None, color: ShapeColor::LightYellow },
        ShapeKind::RoundedRect { start: p, end: q, label: Some(String::from("r")), color: ShapeColor::LightBlue },
        ShapeKind::Cylinder { start: p, end: q, label: None, color: ShapeColor::LightMagenta },
        ShapeKind::Cloud { start: p, end: q, label: None, color: ShapeColor::LightCyan },
        ShapeKind::Star { center: p, outer_radius: 7, inner_radius: 3, label: Some(String::from("s")), color: ShapeColor::DarkGray },
    ]
}

#[test]
fn round_trip_every_shape_kind() {
    for kind in sample_kinds() {
        let mut buf: Vec<u8> = Vec::new();
        codec::write_kind(&mut buf, &kind);
        let (back, used) = codec::read_kind(&buf, 0).expect("own encoding decodes");
        assert_eq!(back, kind);
        assert_eq!(used, buf.len());
    }
}

#[test]
fn round_trip_rejects_truncation() {
    let mut buf: Vec<u8> = Vec::new();
    codec::write_kind(&mut buf, &rect_at(2, 2));
    buf.pop();
    assert!(codec::read_kind(&buf, 0).is_none());
}

#[test]
fn z_order_front_then_back_is_absolute() {
    let mut doc = Document::new(5);
    let bottom = doc.add_shape(rect_at(0, 0)).unwrap();
    let mid = doc.add_shape(rect_at(1, 1)).unwrap();
    let top = doc.add_shape(rect_at(2, 2)).unwrap();
    assert_eq!(order_ids(&doc), vec![bottom.0, mid.0, top.0]);

    doc.bring_to_front(&vec![mid]);
    assert_eq!(order_ids(&doc), vec![bottom.0, top.0, mid.0]);

    doc.send_to_back(&vec![mid]);
    // Absolute, not a toggle: the shape lands at the bottom, not back in
    // the middle.
    assert_eq!(order_ids(&doc), vec![mid.0, bottom.0, top.0]);
}

fn order_ids(doc: &Document) -> Vec<u128> {
    doc.read_shape_order().iter().map(|s| s.0).collect()
}

#[test]
fn bring_forward_on_topmost_is_a_no_op() {
    let mut doc = Document::new(5);
    let bottom = doc.add_shape(rect_at(0, 0)).unwrap();
    let top = doc.add_shape(rect_at(1, 1)).unwrap();
    doc.bring_forward(&vec![top]);
    assert_eq!(order_ids(&doc), vec![bottom.0, top.0]);
    doc.bring_forward(&vec![bottom]);
    assert_eq!(order_ids(&doc), vec![top.0, bottom.0]);
}

#[test]
fn undo_restores_and_redo_replays() {
    let mut doc = Document::new(9);
    let mut history: Vec<Vec<(u128, ShapeKind)>> = Vec::new();
    for i in 0..4 {
        history.push(shape_set(&doc));
        doc.push_undo_checkpoint();
        doc.add_shape(rect_at(i, i)).unwrap();
    }
    let final_state = shape_set(&doc);
    for expected in history.iter().rev() {
        assert_eq!(doc.global_undo(), Ok(true));
        assert_eq!(&shape_set(&doc), expected);
    }
    assert_eq!(doc.global_undo(), Ok(false));
    // One redo after one undo restores the mutated state exactly.
    assert_eq!(doc.global_redo(), Ok(true));
    assert_eq!(shape_set(&doc), {
        let mut h = history.clone();
        h.remove(0);
        h[0].clone()
    });
    while doc.global_redo() == Ok(true) {}
    assert_eq!(shape_set(&doc), final_state);
}

#[test]
fn checkpoint_clears_redo() {
    let mut doc = Document::new(9);
    doc.push_undo_checkpoint();
    doc.add_shape(rect_at(0, 0)).unwrap();
    assert_eq!(doc.global_undo(), Ok(true));
    doc.push_undo_checkpoint();
    assert_eq!(doc.global_redo(), Ok(false));
}

#[test]
fn layer_deletion_reassigns_shapes_and_keeps_the_last_layer() {
    let mut doc = Document::new(3);
    let default_layer = doc.get_default_layer().unwrap();
    let extra = doc.create_layer(String::from("overlay"));
    let s1 = doc.add_shape(rect_at(0, 0)).unwrap();
    let s2 = doc.add_shape(rect_at(4, 4)).unwrap();
    doc.set_shape_layer(s1, extra);
    doc.set_shape_layer(s2, extra);

    doc.delete_layer(extra).unwrap();
    let remaining: Vec<u128> = doc.read_layer_order().iter().map(|l| l.0).collect();
    assert_eq!(remaining, vec![default_layer.0]);
    for sid in [s1, s2] {
        let l = doc.get_shape_layer(sid).expect("shape keeps a layer");
        assert!(remaining.contains(&l.0));
    }
    assert_eq!(doc.delete_layer(default_layer), Err(StoreError::LastLayer));
}

#[test]
fn group_lifecycle_sets_and_clears_members() {
    let mut doc = Document::new(3);
    let s1 = doc.add_shape(rect_at(0, 0)).unwrap();
    let s2 = doc.add_shape(rect_at(5, 0)).unwrap();
    assert_eq!(
        doc.create_group(&Vec::new(), None),
        Err(StoreError::EmptyGroup)
    );
    let g = doc.create_group(&vec![s1, s2], None).unwrap();
    assert_eq!(doc.get_shape_group(s1), Some(g));
    assert_eq!(doc.get_shape_group(s2), Some(g));
    let gr = doc.read_group(g).unwrap();
    assert_eq!(gr.members.len(), 2);
    let shapes = doc.get_all_group_shapes(g);
    assert_eq!(shapes.len(), 2);
    assert_eq!(doc.get_root_group(g), g);
    doc.delete_group(g);
    assert_eq!(doc.get_shape_group(s1), None);
    assert_eq!(doc.get_shape_group(s2), None);
    assert!(doc.read_group(g).is_none());
}

#[test]
fn invalid_shape_is_rejected() {
    let mut doc = Document::new(3);
    let bad = ShapeKind::Rectangle {
        start: Position::new(i32::MAX, 0),
        end: Position::new(0, 0),
        label: None,
        color: ShapeColor::White,
    };
    assert_eq!(doc.add_shape(bad), Err(StoreError::InvalidShape));
    assert!(doc.read_all_shapes().is_empty());
}

#[test]
fn presence_staleness_prunes_silent_peers() {
    let local = PeerId([0u8; 32]);
    let mut mgr = PresenceManager::new(local);
    let remote = PeerId([7u8; 32]);
    let p = PeerPresence::new(remote, Position::new(1, 1), CursorActivity::Idle, 1000);
    mgr.update_peer(p, 1000);
    assert_eq!(mgr.peer_count(), 1);

    mgr.prune_stale(4000);
    assert_eq!(mgr.active_peers().len(), 1);
    // Silent for more than the threshold: gone after the next tick.
    mgr.prune_stale(6001);
    assert!(mgr.active_peers().is_empty());
}

#[test]
fn presence_updates_replace_and_leave_removes() {
    let local = PeerId([0u8; 32]);
    let mut mgr = PresenceManager::new(local);
    let remote = PeerId([9u8; 32]);
    mgr.update_peer(
        PeerPresence::new(remote, Position::new(1, 1), CursorActivity::Idle, 10),
        10,
    );
    mgr.update_peer(
        PeerPresence::new(remote, Position::new(2, 2), CursorActivity::Idle, 20),
        20,
    );
    assert_eq!(mgr.peer_count(), 1);
    assert_eq!(mgr.active_peers()[0].cursor_pos, Position::new(2, 2));
    // Our own presence is never tracked.
    mgr.update_peer(
        PeerPresence::new(local, Position::new(0, 0), CursorActivity::Idle, 30),
        30,
    );
    assert_eq!(mgr.peer_count(), 1);
    mgr.remove_peer(&remote);
    assert_eq!(mgr.peer_count(), 0);
}

#[test]
fn peer_color_follows_id() {
    let id = PeerId([13u8; 32]);
    let p = PeerPresence::new(id, Position::new(0, 0), CursorActivity::Idle, 0);
    assert_eq!(p.color_index, 13 % 8);
}

#[test]
fn frames_round_trip_and_keep_the_empty_sentinel() {
    let payload = vec![1u8, 2, 3, 250];
    let framed = encode_frame(&payload);
    assert_eq!(framed.len(), 8 + payload.len());
    let (back, used) = decode_frame(&framed, 0).unwrap();
    assert_eq!(back, payload);
    assert_eq!(used, framed.len());

    let sentinel = encode_frame(&Vec::new());
    assert_eq!(sentinel, vec![0u8; 8]);
    let (empty, _) = decode_frame(&sentinel, 0).unwrap();
    assert!(empty.is_empty());

    let framed4 = encode_frame4(&payload);
    assert_eq!(framed4.len(), 4 + payload.len());
    let (back4, used4) = decode_frame4(&framed4, 0).unwrap();
    assert_eq!(back4, payload);
    assert_eq!(used4, framed4.len());
}

#[test]
fn truncated_frame_is_rejected() {
    let framed = encode_frame(&vec![1u8, 2, 3]);
    assert!(decode_frame(&framed[..framed.len() - 1].to_vec(), 0).is_none());
}

#[test]
fn tickets_round_trip_and_accept_legacy_ids() {
    let addr: Vec<u8> = (0u8..40).collect();
    let ticket = encode_ticket(&addr);
    assert!(ticket.starts_with("irohscii1"));
    assert_eq!(decode_ticket(&ticket), Some(addr));

    let legacy = "00ff10ab".repeat(8);
    assert_eq!(legacy.len(), 64);
    let decoded = decode_ticket(&legacy).unwrap();
    assert_eq!(decoded.len(), 32);
    assert_eq!(&decoded[..4], &[0x00, 0xff, 0x10, 0xab]);

    assert!(decode_ticket("not a ticket").is_none());
    assert!(decode_ticket("zz".repeat(32).as_str()).is_none());
}

#[test]
fn undo_manager_tracks_snapshots() {
    let mut mgr = UndoManager::new(2);
    mgr.save_state(vec![1]);
    mgr.save_state(vec![2]);
    mgr.save_state(vec![3]);
    // Depth bound: the oldest checkpoint fell off.
    assert_eq!(mgr.undo_count(), 2);
    assert!(mgr.can_undo());
    assert!(!mgr.can_redo());
    let prev = mgr.undo(vec![4]).unwrap();
    assert_eq!(prev, vec![3]);
    assert!(mgr.can_redo());
    let next = mgr.redo(vec![3]).unwrap();
    assert_eq!(next, vec![4]);
    mgr.clear();
    assert_eq!(mgr.undo_count() + mgr.redo_count(), 0);
}

#[test]
fn recent_files_keep_most_recent_first() {
    let mut rf = RecentFiles::new();
    rf.add(String::from("/tmp/a.txt"));
    rf.add(String::from("/tmp/b.txt"));
    rf.add(String::from("/tmp/a.txt"));
    assert_eq!(rf.len(), 2);
    assert_eq!(rf.get(0).unwrap().path, "/tmp/a.txt");
    assert_eq!(rf.get(0).unwrap().name, "a.txt");
    assert_eq!(rf.get(1).unwrap().path, "/tmp/b.txt");
    assert!(!rf.is_empty());
    for i in 0..20 {
        rf.add(format!("/x/{}", i));
    }
    assert_eq!(rf.len(), 10);
    assert_eq!(rf.iter().first().unwrap().name, "19");
}

#[test]
fn update_shape_replaces_the_whole_record() {
    let mut doc = Document::new(4);
    let id = doc.add_shape(rect_at(0, 0)).unwrap();
    let layer = doc.get_default_layer().unwrap();
    doc.set_shape_layer(id, layer);
    assert!(doc.get_shape_layer(id).is_some());
    // The whole-record write drops the layer reference: field-level
    // merges are deliberately not attempted.
    doc.update_shape(id, rect_at(9, 9)).unwrap();
    assert_eq!(doc.read_shape(id), Some(rect_at(9, 9)));
    assert!(doc.get_shape_layer(id).is_none());
}

#[test]
fn delete_shape_is_idempotent() {
    let mut doc = Document::new(4);
    let id = doc.add_shape(rect_at(0, 0)).unwrap();
    doc.delete_shape(id);
    assert!(doc.read_shape(id).is_none());
    doc.delete_shape(id);
    assert!(doc.read_shape(id).is_none());
    assert!(order_ids(&doc).is_empty());
}

#[test]
fn concurrent_update_and_delete_resolve_by_later_stamp() {
    // The documented conflict rule: the later write wins, whichever kind
    // it is.  B's delete carries a later stamp than A's update here, so
    // the delete survives on both sides.
    let mut a = Document::new(1);
    let mut b = Document::new(2);
    let id = a.add_shape(rect_at(0, 0)).unwrap();
    sync_once(&a, &mut b);
    assert!(b.read_shape(id).is_some());

    a.update_shape(id, rect_at(1, 1)).unwrap();
    b.delete_shape(id);
    b.delete_shape(id);
    b.delete_shape(id);

    let mut sta = SyncState::new();
    let mut stb = SyncState::new();
    let msg_a = generate_sync_message(&a, &mut sta).unwrap();
    let msg_b = generate_sync_message(&b, &mut stb).unwrap();
    receive_sync_message(&mut b, &msg_a).unwrap();
    receive_sync_message(&mut a, &msg_b).unwrap();
    assert_eq!(shape_set(&a), shape_set(&b));
}

#[test]
fn shape_accessors_are_consistent() {
    let k = rect_at(0, 0).with_label(Some(String::from("hi"))).with_color(ShapeColor::Red);
    assert_eq!(k.label(), Some("hi"));
    assert_eq!(k.color(), ShapeColor::Red);
    assert!(k.supports_label());
    assert_eq!(k.variant_name(), "Rectangle");
    assert_eq!(k.connections(), (None, None));
    let moved = k.translated(3, -2);
    match moved {
        ShapeKind::Rectangle { start, end, .. } => {
            assert_eq!(start, Position::new(3, -2));
            assert_eq!(end, Position::new(7, 0));
        },
        _ => panic!("translation keeps the variant"),
    }
    let snaps = rect_at(0, 0).snap_points();
    assert_eq!(snaps.len(), 8);
    assert!(snaps.contains(&Position::new(0, 0)));
    assert!(snaps.contains(&Position::new(4, 2)));
    assert_eq!(ShapeColor::White.next(), ShapeColor::Red);
    assert_eq!(ShapeColor::Blue.to_css(), "#0000cd");
    assert_eq!(LineStyle::Straight.next(), LineStyle::OrthogonalHV);
}

fn line_to(target: u128, from: Position, to: Position) -> ShapeKind {
    ShapeKind::Line {
        start: from,
        end: to,
        style: LineStyle::Straight,
        start_connection: None,
        end_connection: Some(target),
        label: None,
        color: ShapeColor::White,
    }
}

#[test]
fn moving_a_shape_drags_connected_endpoints() {
    let mut doc = Document::new(6);
    let target = doc.add_shape(rect_at(0, 0)).unwrap();
    let wire = doc
        .add_shape(line_to(target.0, Position::new(-5, -5), Position::new(0, 1)))
        .unwrap();
    let loose = doc
        .add_shape(line_to(999, Position::new(9, 9), Position::new(10, 10)))
        .unwrap();

    let updated = doc.update_connections_for_shape(target, 3, 2);
    assert_eq!(updated.len(), 1);
    assert_eq!(updated[0], wire);
    match doc.read_shape(wire).unwrap() {
        ShapeKind::Line { start, end, .. } => {
            assert_eq!(start, Position::new(-5, -5));
            assert_eq!(end, Position::new(3, 3));
        },
        _ => panic!("still a line"),
    }
    match doc.read_shape(loose).unwrap() {
        ShapeKind::Line { end, .. } => assert_eq!(end, Position::new(10, 10)),
        _ => panic!("still a line"),
    }
}

#[test]
fn resizing_a_shape_moves_endpoints_to_matching_snaps() {
    let mut doc = Document::new(6);
    let old_kind = rect_at(0, 0); // corners (0,0)-(4,2)
    let target = doc.add_shape(old_kind.clone()).unwrap();
    // Snapped to the right-edge midpoint of the old rectangle.
    let wire = doc
        .add_shape(line_to(target.0, Position::new(9, 1), Position::new(4, 1)))
        .unwrap();
    let new_kind = ShapeKind::Rectangle {
        start: Position::new(0, 0),
        end: Position::new(8, 2),
        label: None,
        color: ShapeColor::White,
    };
    let updated = doc.update_connections_for_resize(target, &old_kind, &new_kind);
    assert_eq!(updated, vec![wire]);
    match doc.read_shape(wire).unwrap() {
        ShapeKind::Line { end, .. } => assert_eq!(end, Position::new(8, 1)),
        _ => panic!("still a line"),
    }

    // Differing snap counts: the correspondence is ambiguous, nothing
    // moves.
    let odd_kind = line_to(0, Position::new(0, 0), Position::new(1, 1));
    let untouched = doc.update_connections_for_resize(target, &old_kind, &odd_kind);
    assert!(untouched.is_empty());
}

#[test]
fn root_group_follows_parent_chains() {
    let mut doc = Document::new(6);
    let s1 = doc.add_shape(rect_at(0, 0)).unwrap();
    let s2 = doc.add_shape(rect_at(6, 0)).unwrap();
    let outer = doc.create_group(&vec![s1], None).unwrap();
    let inner = doc.create_group(&vec![s2], Some(outer)).unwrap();
    assert_eq!(doc.get_root_group(inner), outer);
    assert_eq!(doc.get_root_group(outer), outer);
    let all = doc.get_all_group_shapes(outer);
    let mut ids: Vec<u128> = all.iter().map(|s| s.0).collect();
    ids.sort();
    let mut expect = vec![s1.0, s2.0];
    expect.sort();
    assert_eq!(ids, expect);
    // The nested group alone yields only its own member.
    assert_eq!(doc.get_all_group_shapes(inner).len(), 1);
}

#[test]
fn recent_file_names_ignore_trailing_separators() {
    let mut rf = RecentFiles::new();
    rf.add(String::from("/tmp/dir/"));
    assert_eq!(rf.get(0).unwrap().name, "dir");
    rf.add(String::from("///"));
    assert_eq!(rf.get(0).unwrap().name, "///");
}

#[test]
fn reapplied_sync_message_leaves_undo_history_usable() {
    let mut a = Document::new(1);
    let mut b = Document::new(2);
    a.add_shape(rect_at(0, 0)).unwrap();
    b.push_undo_checkpoint();
    b.add_shape(rect_at(5, 5)).unwrap();

    let mut st = SyncState::new();
    let msg = generate_sync_message(&a, &mut st).unwrap();
    receive_sync_message(&mut b, &msg).unwrap();
    receive_sync_message(&mut b, &msg).unwrap();
    // Merging never touches the local history: the checkpoint is still
    // there and still restores the whole checkpointed shape set (which
    // was empty), replacing the shapes collection atomically.
    assert_eq!(b.global_undo(), Ok(true));
    assert!(shape_set(&b).is_empty());
}

#[test]
fn ticket_round_trip_is_stated_not_just_tested() {
    // encode_ticket's contract carries the decodes-back fact, so the
    // round trip here exercises exactly what is proved.
    let addr: Vec<u8> = vec![9; 32];
    assert_eq!(decode_ticket(&encode_ticket(&addr)), Some(addr));
}
