use fb_server::protocol::Rect;
use fb_server::visibility::{compute_visibility, LayerInfo};

fn rect(x: u32, y: u32, w: u32, h: u32) -> Option<Rect> {
    Some(Rect { x, y, w, h })
}

fn layers(names: &[&str]) -> Vec<String> {
    names.iter().map(|s| s.to_string()).collect()
}

fn info(id: u64, name: &str, rect: Option<Rect>) -> LayerInfo<'_> {
    LayerInfo { id, name, session: None, rect }
}

fn r(x: u32, y: u32, w: u32, h: u32) -> Rect {
    Rect { x, y, w, h }
}

#[test]
fn overlap_clips_lower_priority_layer() {
    let layers = layers(&["task-var", "spotatui-pip"]);
    let infos = vec![
        info(1, "spotatui-pip", rect(0, 0, 100, 100)),
        info(2, "task-var", rect(50, 50, 100, 100)),
    ];
    let v = compute_visibility(&infos, &layers, None);
    assert!(v[0].visible);
    assert_eq!(v[0].clip, vec![r(50, 50, 50, 50)]);
    assert!(v[1].visible);
    assert!(v[1].clip.is_empty(), "最上位に clip は付かない");
}

#[test]
fn disjoint_rects_get_no_clip() {
    let layers = layers(&["task-var", "spotatui-pip"]);
    let infos = vec![
        info(1, "spotatui-pip", rect(0, 0, 50, 50)),
        info(2, "task-var", rect(50, 50, 50, 50)),
    ];
    let v = compute_visibility(&infos, &layers, None);
    assert!(v[0].visible && v[0].clip.is_empty());
    assert!(v[1].visible && v[1].clip.is_empty());
}

#[test]
fn client_without_rect_does_not_participate() {
    let layers = layers(&["task-var", "spotatui-pip"]);
    let infos = vec![
        info(1, "spotatui-pip", None),
        info(2, "task-var", rect(0, 0, 100, 100)),
    ];
    let v = compute_visibility(&infos, &layers, None);
    assert!(v[0].visible && v[0].clip.is_empty());
    assert!(v[1].visible && v[1].clip.is_empty());
}

#[test]
fn rectless_upper_layer_does_not_clip_lower() {
    let layers = layers(&["task-var", "spotatui-pip"]);
    let infos = vec![
        info(1, "spotatui-pip", rect(0, 0, 100, 100)),
        info(2, "task-var", None),
    ];
    let v = compute_visibility(&infos, &layers, None);
    assert!(v[0].visible && v[0].clip.is_empty());
}

#[test]
fn clip_accumulates_from_all_higher_layers() {
    let layers = layers(&["a", "b", "c"]);
    let infos = vec![
        info(1, "a", rect(0, 0, 20, 20)),
        info(2, "b", rect(80, 0, 20, 20)),
        info(3, "c", rect(0, 0, 100, 20)),
    ];
    let v = compute_visibility(&infos, &layers, None);
    assert!(v[2].visible);
    assert_eq!(v[2].clip.len(), 2);
    assert!(v[2].clip.contains(&r(0, 0, 20, 20)));
    assert!(v[2].clip.contains(&r(80, 0, 20, 20)));
}

#[test]
fn out_of_scene_layer_never_clips() {
    let layers = layers(&["b"]);
    let infos = vec![
        info(1, "a", rect(0, 0, 100, 100)),
        info(2, "b", rect(0, 0, 100, 100)),
    ];
    let v = compute_visibility(&infos, &layers, None);
    assert!(!v[0].visible, "シーン外は非表示");
    assert_eq!(v[0].reason, None, "シーン外の非表示に reason は付かない");
    assert!(v[1].visible);
    assert!(v[1].clip.is_empty(), "シーン外の a は occluder にならない");
}

#[test]
fn session_mismatch_hides_and_stops_occluding() {
    let layers = layers(&["a", "b"]);
    let mut a = info(1, "a", rect(0, 0, 100, 100));
    a.session = Some("$1");
    let infos = vec![a, info(2, "b", rect(0, 0, 100, 100))];
    let v = compute_visibility(&infos, &layers, Some("$0"));
    assert!(!v[0].visible);
    assert_eq!(v[0].reason.as_deref(), Some("session"));
    assert!(v[1].visible);
    assert!(v[1].clip.is_empty(), "非表示の a は clip 源にならない");
}

#[test]
fn same_name_later_connection_clips_earlier() {
    let layers = layers(&["a"]);
    let infos = vec![
        info(1, "a", rect(0, 0, 10, 10)),
        info(2, "a", rect(0, 0, 10, 10)),
    ];
    let v = compute_visibility(&infos, &layers, None);
    assert!(v[1].visible && v[1].clip.is_empty());
    assert!(v[0].visible);
    assert_eq!(v[0].clip, vec![r(0, 0, 10, 10)]);
}

#[test]
fn intersect_computes_overlap_region() {
    let a = r(0, 0, 50, 50);
    assert_eq!(a.intersect(&r(50, 0, 50, 50)), None, "辺が接するだけは重ならない");
    assert_eq!(a.intersect(&r(40, 40, 50, 50)), Some(r(40, 40, 10, 10)));
    assert_eq!(a.intersect(&r(0, 0, 0, 0)), None, "幅0は重ならない");
    assert_eq!(a.intersect(&r(10, 10, 20, 20)), Some(r(10, 10, 20, 20)), "内包");
}

#[test]
fn intersect_does_not_depend_on_the_order() {
    let a = r(3, 7, 20, 11);
    let b = r(10, 0, 40, 9);
    assert_eq!(a.intersect(&b), Some(r(10, 7, 13, 2)));
    assert_eq!(b.intersect(&a), Some(r(10, 7, 13, 2)));
}

#[test]
fn intersect_reaches_past_the_largest_coordinate() {
    let a = r(u32::MAX - 1, 0, 10, 10);
    let b = r(u32::MAX - 3, 5, u32::MAX, 10);
    assert_eq!(a.intersect(&b), Some(r(u32::MAX - 1, 5, 10, 5)));
}

#[test]
fn clips_are_listed_from_the_topmost_layer_down() {
    let layers = layers(&["a", "b", "c"]);
    let infos = vec![
        info(1, "c", rect(0, 0, 100, 100)),
        info(2, "b", rect(10, 0, 10, 10)),
        info(3, "a", rect(20, 0, 10, 10)),
        info(4, "a", rect(30, 0, 10, 10)),
    ];
    let v = compute_visibility(&infos, &layers, None);
    assert_eq!(v[0].clip, vec![r(30, 0, 10, 10), r(20, 0, 10, 10), r(10, 0, 10, 10)]);
    assert!(v.iter().all(|m| m.scene.is_none()));
}

#[test]
fn session_binding_fails_open() {
    let layers = layers(&["a"]);
    let bound = |session| LayerInfo { id: 1, name: "a", session, rect: None };
    assert!(compute_visibility(&[bound(Some("$1"))], &layers, None)[0].visible);
    assert!(compute_visibility(&[bound(None)], &layers, Some("$0"))[0].visible);
    assert!(compute_visibility(&[bound(Some("$0"))], &layers, Some("$0"))[0].visible);
    assert!(compute_visibility(&[], &layers, Some("$0")).is_empty());
}

#[test]
fn hidden_by_the_scene_has_no_reason_even_if_the_session_differs() {
    let infos = vec![LayerInfo { id: 1, name: "a", session: Some("$1"), rect: None }];
    let v = compute_visibility(&infos, &layers(&["b"]), Some("$0"));
    assert!(!v[0].visible);
    assert_eq!(v[0].reason, None);
}

#[test]
fn every_pixel_is_drawn_by_one_client() {
    let layers = layers(&["a", "b"]);
    let infos = vec![
        info(1, "b", rect(0, 0, 6, 6)),
        info(2, "a", rect(3, 3, 6, 6)),
        info(3, "a", rect(5, 0, 3, 8)),
    ];
    let v = compute_visibility(&infos, &layers, None);
    let inside = |q: &Rect, x: u32, y: u32| q.x <= x && x < q.x + q.w && q.y <= y && y < q.y + q.h;
    for x in 0..12 {
        for y in 0..12 {
            let claims = infos.iter().filter(|c| inside(&c.rect.unwrap(), x, y)).count();
            let draws = infos
                .iter()
                .zip(&v)
                .filter(|(c, m)| {
                    inside(&c.rect.unwrap(), x, y) && !m.clip.iter().any(|q| inside(q, x, y))
                })
                .count();
            assert_eq!(draws, if claims > 0 { 1 } else { 0 });
        }
    }
}

#[test]
fn the_order_of_the_list_does_not_matter() {
    let layers = layers(&["a", "b"]);
    let one = vec![
        info(1, "b", rect(0, 0, 9, 9)),
        info(2, "a", rect(1, 1, 3, 3)),
        info(3, "a", rect(2, 2, 3, 3)),
    ];
    let other = vec![
        info(3, "a", rect(2, 2, 3, 3)),
        info(1, "b", rect(0, 0, 9, 9)),
        info(2, "a", rect(1, 1, 3, 3)),
    ];
    let v = compute_visibility(&one, &layers, None);
    let w = compute_visibility(&other, &layers, None);
    assert_eq!(v[0], w[1]);
    assert_eq!(v[1], w[2]);
    assert_eq!(v[2], w[0]);
    assert_eq!(v[0].clip, vec![r(2, 2, 3, 3), r(1, 1, 3, 3)]);
}

#[test]
fn an_idle_client_makes_no_difference() {
    let layers = layers(&["a", "b"]);
    let with = vec![
        info(1, "hidden", rect(0, 0, 9, 9)),
        info(2, "b", rect(0, 0, 9, 9)),
        info(3, "a", None),
        info(4, "a", rect(4, 4, 2, 2)),
    ];
    let without = vec![info(2, "b", rect(0, 0, 9, 9)), info(4, "a", rect(4, 4, 2, 2))];
    let v = compute_visibility(&with, &layers, None);
    let w = compute_visibility(&without, &layers, None);
    assert_eq!(v[1], w[0]);
    assert_eq!(v[3], w[1]);
    assert_eq!(w[0].clip, vec![r(4, 4, 2, 2)]);
}
