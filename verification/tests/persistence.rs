use cipollino::codec::{
    decode_graphic, decode_palette, encode_graphic, encode_palette, FrameTree, GraphicTree,
    LayerTree, PaletteTree, StrokeTree,
};
use cipollino::graphic::GraphicData;
use cipollino::layer::{LayerData, LayerKind, LayerParent};
use cipollino::project::Project;
use cipollino::saveload::{DirEntry, FileData};
use cipollino::store::ObjPtr;
use cipollino::stroke::{StrokeColor, StrokeData, StrokePoint};

fn empty_project() -> Project {
    Project::new(vec!["proj.cip".to_string()], 24, 44100)
}

fn sample_graphic_tree() -> GraphicTree {
    let stroke = StrokeTree {
        key: 31,
        color: StrokeColor::Palette(7, 2),
        r: 5,
        filled: true,
        points: vec![
            StrokePoint { ax: 1, ay: 2, ptx: 3, pty: 4, bx: 5, by: 6 },
            StrokePoint { ax: 7, ay: 8, ptx: 9, pty: 10, bx: 11, by: 12 },
        ],
    };
    let frame = FrameTree { key: 21, time: -3, strokes: vec![stroke] };
    let inner = LayerTree {
        key: 12,
        name: "Inner".to_string(),
        show: false,
        kind: LayerKind::Group,
        frames: vec![],
        layers: vec![],
    };
    let layer = LayerTree {
        key: 11,
        name: "Ink".to_string(),
        show: true,
        kind: LayerKind::Animation,
        frames: vec![frame],
        layers: vec![inner],
    };
    let second = LayerTree {
        key: 13,
        name: "Paint".to_string(),
        show: true,
        kind: LayerKind::Audio,
        frames: vec![],
        layers: vec![],
    };
    GraphicTree {
        key: 9,
        name: "Shot".to_string(),
        len: 42,
        clip: true,
        w: 800,
        h: 600,
        layers: vec![layer, second],
    }
}

fn assert_graphic_trees_equal(a: &GraphicTree, b: &GraphicTree) {
    assert_eq!(a.key, b.key);
    assert_eq!(a.name, b.name);
    assert_eq!(a.len, b.len);
    assert_eq!(a.clip, b.clip);
    assert_eq!(a.w, b.w);
    assert_eq!(a.h, b.h);
    assert_eq!(a.layers.len(), b.layers.len());
    for (x, y) in a.layers.iter().zip(b.layers.iter()) {
        assert_layer_trees_equal(x, y);
    }
}

fn assert_layer_trees_equal(a: &LayerTree, b: &LayerTree) {
    assert_eq!(a.key, b.key);
    assert_eq!(a.name, b.name);
    assert_eq!(a.show, b.show);
    assert_eq!(a.kind, b.kind);
    assert_eq!(a.frames.len(), b.frames.len());
    for (x, y) in a.frames.iter().zip(b.frames.iter()) {
        assert_eq!(x.key, y.key);
        assert_eq!(x.time, y.time);
        assert_eq!(x.strokes.len(), y.strokes.len());
        for (sx, sy) in x.strokes.iter().zip(y.strokes.iter()) {
            assert_eq!(sx.key, sy.key);
            assert_eq!(sx.r, sy.r);
            assert_eq!(sx.filled, sy.filled);
            assert_eq!(sx.points, sy.points);
            match (sx.color, sy.color) {
                (StrokeColor::Inline(c1), StrokeColor::Inline(c2)) => assert_eq!(c1, c2),
                (StrokeColor::Palette(p1, e1), StrokeColor::Palette(p2, e2)) => {
                    assert_eq!(p1, p2);
                    assert_eq!(e1, e2);
                },
                _ => panic!("color variants differ"),
            }
        }
    }
    assert_eq!(a.layers.len(), b.layers.len());
    for (x, y) in a.layers.iter().zip(b.layers.iter()) {
        assert_layer_trees_equal(x, y);
    }
}

#[test]
fn graphic_codec_round_trips() {
    let tree = sample_graphic_tree();
    let encoded = encode_graphic(&tree);
    let decoded = decode_graphic(&encoded);
    assert_graphic_trees_equal(&decoded, &tree);
}

#[test]
fn palette_codec_round_trips() {
    let tree = PaletteTree {
        key: 4,
        name: "Warm".to_string(),
        colors: vec![0xff0000ff, 0x00ff00ff, 123],
    };
    let encoded = encode_palette(&tree);
    let decoded = decode_palette(&encoded);
    assert_eq!(decoded.key, 4);
    assert_eq!(decoded.name, "Warm");
    assert_eq!(decoded.colors, vec![0xff0000ff, 0x00ff00ff, 123]);
}

#[test]
fn loading_a_tree_keeps_free_identifiers() {
    let mut p = empty_project();
    let tree = sample_graphic_tree();
    let root = p.root_folder;
    let g = p.insert_graphic_tree(&tree, root).unwrap();
    assert_eq!(g, 9);
    assert_eq!(p.graphics.get(ObjPtr::from_key(g)).unwrap().data.name, "Shot");
    assert!(p.layers.get(ObjPtr::from_key(11)).is_some());
    assert!(p.frames.get(ObjPtr::from_key(21)).is_some());
    assert!(p.strokes.get(ObjPtr::from_key(31)).is_some());
    assert_eq!(p.frames.get(ObjPtr::from_key(21)).unwrap().data.layer, 11);
}

#[test]
fn loading_a_duplicate_remaps_colliding_identifiers() {
    let mut p = empty_project();
    let tree = sample_graphic_tree();
    let root = p.root_folder;
    let first = p.insert_graphic_tree(&tree, root).unwrap();
    let second = p.insert_graphic_tree(&tree, root).unwrap();
    assert_eq!(first, 9);
    assert_ne!(second, 9);
    // Both copies are complete and internally consistent: each has two top
    // layers, and the remapped copy's frame points at the remapped layer.
    assert_eq!(p.graphics.get(ObjPtr::from_key(first)).unwrap().layers.len(), 2);
    let second_layers = p.graphics.get(ObjPtr::from_key(second)).unwrap().layers.clone();
    assert_eq!(second_layers.len(), 2);
    assert_ne!(second_layers[0], 11);
    let remapped_frame = p.layers.get(ObjPtr::from_key(second_layers[0])).unwrap().frames[0];
    assert_eq!(
        p.frames.get(ObjPtr::from_key(remapped_frame)).unwrap().data.layer,
        second_layers[0]
    );
}

#[test]
fn save_and_load_reproduce_the_project_shape() {
    let mut p = empty_project();
    let root = p.root_folder;
    let tree = sample_graphic_tree();
    p.insert_graphic_tree(&tree, root).unwrap();
    // A nested folder with a palette inside.
    let key = p.folders.peek_next_handle().key;
    assert!(p.insert_folder_at(
        key,
        cipollino::folder::FolderData { name: "Scenes".to_string(), folder: root.key },
        usize::MAX
    ));
    let pal = PaletteTree { key: 5, name: "Warm".to_string(), colors: vec![1, 2, 3] };
    p.insert_palette_tree(&pal, ObjPtr::from_key(key)).unwrap();

    let entries = p.save().unwrap();
    let base = "proj".to_string();
    let dir_name = "proj".to_string();
    let (loaded, report) = Project::load(
        vec!["proj.cip".to_string()],
        24,
        44100,
        &dir_name,
        &base,
        &vec![],
        &entries,
    );
    assert!(report.unresolved.is_empty());
    // The root folder takes the project directory's name, and the settings
    // carry over.
    assert_eq!(loaded.folders.get(loaded.root_folder).unwrap().data.name, "proj");
    assert_eq!(loaded.fps, 24);
    assert_eq!(loaded.sample_rate, 44100);

    // The graphic kept its identity and observable fields.
    let g = ObjPtr::from_key(9);
    let gobj = loaded.graphics.get(g).unwrap();
    assert_eq!(gobj.data.name, "Shot");
    assert_eq!(gobj.data.len, 42);
    assert!(gobj.data.clip);
    assert_eq!(gobj.layers.len(), 2);
    let top = loaded.layers.get(ObjPtr::from_key(gobj.layers[0])).unwrap();
    assert_eq!(top.data.name, "Ink");
    assert_eq!(top.frames.len(), 1);
    assert_eq!(top.layers.len(), 1);
    let frame = loaded.frames.get(ObjPtr::from_key(top.frames[0])).unwrap();
    assert_eq!(frame.data.time, -3);
    assert_eq!(frame.strokes.len(), 1);
    let stroke = loaded.strokes.get(ObjPtr::from_key(frame.strokes[0])).unwrap();
    assert_eq!(stroke.data.r, 5);
    assert!(stroke.data.filled);
    assert_eq!(stroke.data.points.len(), 2);

    // The nested folder and its palette came back under their names.
    let root_obj = loaded.folders.get(loaded.root_folder).unwrap();
    assert_eq!(root_obj.folders.len(), 1);
    let sub = loaded.folders.get(ObjPtr::from_key(root_obj.folders[0])).unwrap();
    assert_eq!(sub.data.name, "Scenes");
    assert_eq!(sub.palettes.len(), 1);
    let pal_loaded = loaded.palettes.get(ObjPtr::from_key(sub.palettes[0])).unwrap();
    assert_eq!(pal_loaded.data.name, "Warm");
    assert_eq!(pal_loaded.data.colors, vec![1, 2, 3]);
}

#[test]
fn file_path_follows_the_folder_chain() {
    let mut p = empty_project();
    let root = p.root_folder;
    let a = p.folders.peek_next_handle().key;
    assert!(p.insert_folder_at(
        a,
        cipollino::folder::FolderData { name: "a".to_string(), folder: root.key },
        usize::MAX
    ));
    let b = p.folders.peek_next_handle().key;
    assert!(p.insert_folder_at(
        b,
        cipollino::folder::FolderData { name: "b".to_string(), folder: a },
        usize::MAX
    ));
    let path = cipollino::folder::Folder::file_path(&p, ObjPtr::from_key(b)).unwrap();
    assert_eq!(path, vec!["a".to_string(), "b".to_string()]);
    let rootpath = cipollino::folder::Folder::file_path(&p, root).unwrap();
    assert!(rootpath.is_empty());
    assert!(cipollino::folder::Folder::file_path(&p, ObjPtr::from_key(999)).is_none());
}

#[test]
fn base_path_drops_the_descriptor_component() {
    let p = Project::new(vec!["home".to_string(), "proj.cip".to_string()], 24, 44100);
    assert_eq!(p.base_path(), vec!["home".to_string()]);
}

#[test]
fn loading_an_unknown_extension_is_ignored() {
    let mut p = empty_project();
    let root = p.root_folder;
    let base = "proj".to_string();
    let entry = DirEntry::File {
        stem: "notes".to_string(),
        ext: "txt".to_string(),
        data: FileData::Bytes(vec![1, 2, 3]),
    };
    assert!(!p.load_file(&entry, root, &base.clone(), &base));
    assert!(p.graphics.get(ObjPtr::from_key(1)).is_none());
}

#[test]
fn decoding_defaults_missing_fields() {
    // A graphic document missing every field decodes to defaults instead of
    // failing: the damaged parts default, the rest of the load goes on.
    let empty_doc = cipollino::codec::Value::Doc(vec![]);
    let t = decode_graphic(&empty_doc);
    assert_eq!(t.key, 0);
    assert_eq!(t.name, "");
    assert_eq!(t.layers.len(), 0);
    let garbage = cipollino::codec::Value::Bool(true);
    let t2 = decode_graphic(&garbage);
    assert_eq!(t2.key, 0);
}

#[test]
fn dropping_a_file_into_the_root_folder_loads_it() {
    let mut p = empty_project();
    let tree = sample_graphic_tree();
    let entry = DirEntry::File {
        stem: "Shot".to_string(),
        ext: "cipgfx".to_string(),
        data: FileData::Doc(encode_graphic(&tree)),
    };
    let base = "proj".to_string();
    assert!(p.load_file_to_root_folder(&entry, &base));
    let root_obj = p.folders.get(p.root_folder).unwrap();
    assert_eq!(root_obj.graphics.len(), 1);
}

#[test]
fn graphics_can_be_read_back_as_trees() {
    let mut p = empty_project();
    let root = p.root_folder;
    let gdata = GraphicData {
        name: "Clip".to_string(),
        folder: root.key,
        len: 7,
        clip: false,
        w: 10,
        h: 20,
    };
    let (g, _) = p.add_graphic(gdata).unwrap();
    let ldata = LayerData {
        parent: LayerParent::Graphic(g.key),
        name: "L".to_string(),
        show: true,
        kind: LayerKind::Animation,
    };
    let (l, _) = p.add_layer(ldata).unwrap();
    let (f, _) = p.add_frame(l, 6).unwrap();
    let (_s, _) = p
        .add_stroke(StrokeData {
            frame: f.key,
            color: StrokeColor::Inline(1),
            r: 2,
            filled: false,
            points: vec![],
        })
        .unwrap();
    let tree = p.graphic_tree_of(g).unwrap();
    assert_eq!(tree.key, g.key);
    assert_eq!(tree.name, "Clip");
    assert_eq!(tree.layers.len(), 1);
    assert_eq!(tree.layers[0].frames.len(), 1);
    assert_eq!(tree.layers[0].frames[0].time, 6);
    assert_eq!(tree.layers[0].frames[0].strokes.len(), 1);
}
