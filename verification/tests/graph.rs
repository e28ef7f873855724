use cipollino::frame::FrameData;
use cipollino::graphic::GraphicData;
use cipollino::layer::{Layer, LayerData, LayerKind, LayerParent};
use cipollino::project::Project;
use cipollino::store::{ObjList, ObjPtr};
use cipollino::stroke::{StrokeColor, StrokeData, StrokePoint};

fn empty_project() -> Project {
    Project::new(vec!["proj.cip".to_string()], 24, 44100)
}

fn project_with_layer() -> (Project, ObjPtr<cipollino::graphic::Graphic>, ObjPtr<Layer>) {
    let mut p = empty_project();
    let root = p.root_folder;
    let gdata = GraphicData {
        name: "Clip".to_string(),
        folder: root.key,
        len: 100,
        clip: true,
        w: 1920,
        h: 1080,
    };
    let (g, _) = p.add_graphic(gdata).unwrap();
    let ldata = LayerData {
        parent: LayerParent::Graphic(g.key),
        name: "Layer".to_string(),
        show: true,
        kind: LayerKind::Animation,
    };
    let (l, _) = p.add_layer(ldata).unwrap();
    (p, g, l)
}

fn point(x: u32) -> StrokePoint {
    StrokePoint { ax: x, ay: x + 1, ptx: x + 2, pty: x + 3, bx: x + 4, by: x + 5 }
}

fn stroke_data(frame: u64, r: u32) -> StrokeData {
    StrokeData {
        frame,
        color: StrokeColor::Inline(0xff00ff00),
        r,
        filled: false,
        points: vec![point(r), point(r + 10)],
    }
}

#[test]
fn identifiers_stay_unique_across_add_and_remove() {
    let mut list: ObjList<u64> = ObjList::new();
    let a = list.add(10);
    let b = list.add(11);
    assert_ne!(a.key, b.key);
    let removed = list.remove(a);
    assert_eq!(removed, Some(10));
    let c = list.add(12);
    // The freed identifier is never reused.
    assert_ne!(c.key, a.key);
    assert_ne!(c.key, b.key);
    assert!(list.get(a).is_none());
    assert_eq!(list.get(c), Some(&12));
}

#[test]
fn stale_handle_lookup_returns_not_found() {
    let mut list: ObjList<u64> = ObjList::new();
    let a = list.add(5);
    list.remove(a);
    assert!(list.get(a).is_none());
    assert!(list.remove(a).is_none());
    assert!(!list.contains(a));
}

#[test]
fn frame_is_owned_by_exactly_its_layer() {
    let (mut p, g, l) = project_with_layer();
    let ldata2 = LayerData {
        parent: LayerParent::Graphic(g.key),
        name: "Other".to_string(),
        show: true,
        kind: LayerKind::Animation,
    };
    let (l2, _) = p.add_layer(ldata2).unwrap();
    let (f, _) = p.add_frame(l, 4).unwrap();
    let owner = p.layers.get(l).unwrap();
    let other = p.layers.get(l2).unwrap();
    assert_eq!(owner.frames.iter().filter(|k| **k == f.key).count(), 1);
    assert_eq!(other.frames.iter().filter(|k| **k == f.key).count(), 0);
    assert_eq!(p.frames.get(f).unwrap().data.layer, l.key);
}

#[test]
fn transfer_moves_layer_between_parents() {
    let (mut p, g, l) = project_with_layer();
    let gdata2 = GraphicData {
        name: "Second".to_string(),
        folder: p.root_folder.key,
        len: 10,
        clip: false,
        w: 64,
        h: 64,
    };
    let (g2, _) = p.add_graphic(gdata2).unwrap();
    let act = Layer::transfer(&mut p, l, LayerParent::Graphic(g2.key)).unwrap();
    assert!(p.graphics.get(g).unwrap().layers.is_empty());
    assert_eq!(p.graphics.get(g2).unwrap().layers, vec![l.key]);
    match p.layers.get(l).unwrap().data.parent {
        LayerParent::Graphic(k) => assert_eq!(k, g2.key),
        LayerParent::Layer(_) => panic!("parent should be a graphic"),
    }
    // Undo the transfer: the layer is back in its old place.
    assert!(act.backward(&mut p));
    assert_eq!(p.graphics.get(g).unwrap().layers, vec![l.key]);
    assert!(p.graphics.get(g2).unwrap().layers.is_empty());
}

#[test]
fn transfer_under_itself_is_rejected() {
    let (mut p, _g, l) = project_with_layer();
    let before = p.layers.get(l).unwrap().layers.clone();
    let r = Layer::transfer(&mut p, l, LayerParent::Layer(l.key));
    assert!(r.is_none());
    assert_eq!(p.layers.get(l).unwrap().layers, before);
}

#[test]
fn transfer_under_descendant_is_rejected() {
    let (mut p, g, l) = project_with_layer();
    let child = LayerData {
        parent: LayerParent::Layer(l.key),
        name: "Child".to_string(),
        show: true,
        kind: LayerKind::Group,
    };
    let (c, _) = p.add_layer(child).unwrap();
    let r = Layer::transfer(&mut p, l, LayerParent::Layer(c.key));
    assert!(r.is_none());
    // The graph is unchanged: the child is still under the layer, the layer
    // still under the graphic.
    assert_eq!(p.layers.get(l).unwrap().layers, vec![c.key]);
    assert_eq!(p.graphics.get(g).unwrap().layers, vec![l.key]);
    // Moving the child up to the graphic is fine.
    assert!(Layer::transfer(&mut p, c, LayerParent::Graphic(g.key)).is_some());
}

#[test]
fn frame_queries_resolve_nearest_times() {
    let (mut p, _g, l) = project_with_layer();
    let (f0, _) = p.add_frame(l, 0).unwrap();
    let (f5, _) = p.add_frame(l, 5).unwrap();
    let (f9, _) = p.add_frame(l, 9).unwrap();
    let layer = p.layers.get(l).unwrap();
    assert_eq!(layer.get_frame_at(&p, 7).map(|x| x.key), Some(f5.key));
    assert_eq!(layer.get_frame_at(&p, 5).map(|x| x.key), Some(f5.key));
    assert_eq!(layer.get_frame_at(&p, -1).map(|x| x.key), None);
    assert_eq!(layer.get_frame_exactly_at(&p, 5).map(|x| x.key), Some(f5.key));
    assert_eq!(layer.get_frame_exactly_at(&p, 6).map(|x| x.key), None);
    assert_eq!(layer.get_frame_before(&p, 5).map(|x| x.key), Some(f0.key));
    assert_eq!(layer.get_frame_before(&p, 0).map(|x| x.key), None);
    assert_eq!(layer.get_frame_after(&p, 5).map(|x| x.key), Some(f9.key));
    assert_eq!(layer.get_frame_after(&p, 9).map(|x| x.key), None);
}

#[test]
fn set_frame_data_journals_an_invertible_edit() {
    let (mut p, _g, l) = project_with_layer();
    let (f, _) = p.add_frame(l, 3).unwrap();
    let act = p.set_frame_data(f, FrameData { time: 8, layer: l.key }).unwrap();
    assert_eq!(p.frames.get(f).unwrap().data.time, 8);
    assert!(act.backward(&mut p));
    assert_eq!(p.frames.get(f).unwrap().data.time, 3);
    assert!(act.forward(&mut p));
    assert_eq!(p.frames.get(f).unwrap().data.time, 8);
}

#[test]
fn set_frame_data_refuses_parent_changes() {
    let (mut p, g, l) = project_with_layer();
    let other = LayerData {
        parent: LayerParent::Graphic(g.key),
        name: "Other".to_string(),
        show: true,
        kind: LayerKind::Animation,
    };
    let (l2, _) = p.add_layer(other).unwrap();
    let (f, _) = p.add_frame(l, 3).unwrap();
    assert!(p.set_frame_data(f, FrameData { time: 3, layer: l2.key }).is_none());
    assert_eq!(p.frames.get(f).unwrap().data.layer, l.key);
}

#[test]
fn cascade_delete_removes_strokes_and_undo_restores_them() {
    let (mut p, _g, l) = project_with_layer();
    let (f, _) = p.add_frame(l, 0).unwrap();
    let (s1, _) = p.add_stroke(stroke_data(f.key, 1)).unwrap();
    let (s2, _) = p.add_stroke(stroke_data(f.key, 2)).unwrap();
    let (s3, _) = p.add_stroke(stroke_data(f.key, 3)).unwrap();
    let acts = p.delete_frame(f).unwrap();
    assert_eq!(acts.len(), 4);
    assert!(p.frames.get(f).is_none());
    assert!(p.strokes.get(s1).is_none());
    assert!(p.strokes.get(s2).is_none());
    assert!(p.strokes.get(s3).is_none());
    assert!(p.layers.get(l).unwrap().frames.is_empty());
    // Undo the whole cascade as one unit: everything is back, with its
    // original content and order.
    let action = cipollino::action::Action::from_list(acts);
    action.undo(&mut p);
    assert_eq!(p.layers.get(l).unwrap().frames, vec![f.key]);
    assert_eq!(p.frames.get(f).unwrap().strokes, vec![s1.key, s2.key, s3.key]);
    assert_eq!(p.strokes.get(s2).unwrap().data.r, 2);
    assert_eq!(p.strokes.get(s2).unwrap().data.points, vec![point(2), point(12)]);
    // Redo removes them again.
    action.redo(&mut p);
    assert!(p.frames.get(f).is_none());
    assert!(p.strokes.get(s2).is_none());
}

#[test]
fn history_manager_undoes_and_redoes_recorded_edits() {
    let (mut p, _g, l) = project_with_layer();
    let mut history = cipollino::action::ActionManager::new();
    assert!(!history.can_undo());
    assert!(!history.can_redo());
    let (f, act) = p.add_frame(l, 2).unwrap();
    history.add(cipollino::action::Action::single(act));
    assert!(history.can_undo());
    assert!(history.undo(&mut p));
    assert!(p.frames.get(f).is_none());
    assert!(history.can_redo());
    assert!(history.redo(&mut p));
    assert_eq!(p.frames.get(f).unwrap().data.time, 2);
    assert!(!history.can_redo());
    // Undo on a stale object is a benign no-op: delete the frame through a
    // separate edit, then undo the original addition.
    let _ = p.delete_frame(f).unwrap();
    assert!(history.undo(&mut p));
    assert!(p.frames.get(f).is_none());
}

#[test]
fn graphic_and_palette_setters_journal_invertible_edits() {
    let (mut p, g, _l) = project_with_layer();
    let mut gdata = p.graphics.get(g).unwrap().data.clone();
    gdata.len = 250;
    gdata.name = "Renamed".to_string();
    let act = p.set_graphic_data(g, gdata).unwrap();
    assert_eq!(p.graphics.get(g).unwrap().data.len, 250);
    assert_eq!(p.graphics.get(g).unwrap().data.name, "Renamed");
    assert!(act.backward(&mut p));
    assert_eq!(p.graphics.get(g).unwrap().data.len, 100);
    assert_eq!(p.graphics.get(g).unwrap().data.name, "Clip");

    let (pal, _) = p
        .add_palette(cipollino::palette::PaletteData {
            name: "Warm".to_string(),
            folder: p.root_folder.key,
            colors: vec![1, 2],
        })
        .unwrap();
    let mut pdata = p.palettes.get(pal).unwrap().data.clone();
    pdata.colors = vec![9];
    let act = p.set_palette_data(pal, pdata).unwrap();
    assert_eq!(p.palettes.get(pal).unwrap().data.colors, vec![9]);
    assert!(act.backward(&mut p));
    assert_eq!(p.palettes.get(pal).unwrap().data.colors, vec![1, 2]);
    // A setter never moves an object: naming another parent is refused.
    let mut moved = p.palettes.get(pal).unwrap().data.clone();
    moved.folder = 999;
    assert!(p.set_palette_data(pal, moved).is_none());
}

#[test]
fn root_asset_is_found_through_nested_layers() {
    let (mut p, g, l) = project_with_layer();
    let child = LayerData {
        parent: LayerParent::Layer(l.key),
        name: "Child".to_string(),
        show: true,
        kind: LayerKind::Group,
    };
    let (c, _) = p.add_layer(child).unwrap();
    assert_eq!(Layer::get_root_asset(&p, l).map(|x| x.key), Some(g.key));
    assert_eq!(Layer::get_root_asset(&p, c).map(|x| x.key), Some(g.key));
    assert_eq!(Layer::get_root_asset(&p, ObjPtr::from_key(999)).map(|x| x.key), None);
}

#[test]
fn add_frame_on_stale_layer_fails_without_effect() {
    let mut p = empty_project();
    let ghost_layer: ObjPtr<Layer> = ObjPtr::from_key(99);
    assert!(p.add_frame(ghost_layer, 0).is_none());
    assert!(Layer::transfer(&mut p, ghost_layer, LayerParent::Layer(1)).is_none());
    assert!(p.delete_frame(ObjPtr::from_key(77)).is_none());
}
