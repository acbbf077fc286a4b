use pdfl::structns::{analyze_objects, reached, ObjectFacts, StructFacts};

fn obj(n: u32, desc: &str, refs: &[u32]) -> ObjectFacts {
    ObjectFacts {
        id: (n, 0),
        desc: desc.to_string(),
        size: 10 * n as i64,
        refs: refs.iter().map(|r| (*r, 0)).collect(),
        js_key: false,
        action: None,
        signature_field: false,
    }
}

fn sample() -> StructFacts {
    let mut objects = vec![
        obj(1, "Catalog", &[2]),
        obj(2, "Pages", &[3]),
        obj(3, "Page", &[4, 8, 9]),
        obj(4, "Font", &[]),
        obj(5, "Font", &[]),
        obj(6, "XRef", &[]),
        obj(7, "Action", &[5]),
        obj(8, "Annot", &[]),
        obj(10, "XObject/Image", &[]),
        obj(11, "Sig", &[]),
    ];
    objects[6].action = Some("JavaScript".to_string());
    objects[7].action = Some("URI".to_string());
    objects[9].js_key = true;
    objects[9].signature_field = true;
    StructFacts { trailer_refs: vec![(1, 0)], objects, xmp: String::new(), encrypted: false }
}

#[test]
fn the_trailer_reaches_what_its_objects_refer_to() {
    let marks = reached(&sample());
    assert_eq!(marks, vec![true, true, true, true, false, false, false, true, false, false]);
}

#[test]
fn a_cycle_is_walked_once() {
    let facts = StructFacts {
        trailer_refs: vec![(2, 0)],
        objects: vec![obj(1, "A", &[2]), obj(2, "B", &[1]), obj(3, "C", &[1])],
        xmp: String::new(),
        encrypted: false,
    };
    assert_eq!(reached(&facts), vec![true, true, false]);
    let facts = StructFacts { trailer_refs: vec![], objects: vec![obj(1, "A", &[1])], xmp: String::new(), encrypted: false };
    assert_eq!(reached(&facts), vec![false]);
}

#[test]
fn left_over_objects_and_resources_are_named() {
    let found = analyze_objects(&sample());
    assert_eq!(found.unreferenced, vec!["5: Font", "7: Action", "10: XObject/Image", "11: Sig"]);
    assert_eq!(found.orphaned, vec!["5: Font", "10: XObject/Image"]);
    assert!(found.has_javascript);
    assert!(found.has_signature_fields);
    assert_eq!(found.suspicious_actions, vec!["JavaScript (objeto 7)", "URI (objeto 8)"]);
    assert_eq!(found.objects[0], (1, "Catalog".to_string()));
    assert_eq!(found.sizes[8], (10, 100));
    assert_eq!(found.objects.len(), 10);
}

#[test]
fn a_clean_table_has_no_findings() {
    let facts = StructFacts {
        trailer_refs: vec![(1, 0)],
        objects: vec![obj(1, "Catalog", &[2]), obj(2, "Pages", &[]), obj(3, "ObjStm", &[])],
        xmp: String::new(),
        encrypted: false,
    };
    let found = analyze_objects(&facts);
    assert!(found.unreferenced.is_empty());
    assert!(found.orphaned.is_empty());
    assert!(!found.has_javascript);
    assert!(!found.has_signature_fields);
    assert!(found.suspicious_actions.is_empty());
}

#[test]
fn a_repeated_action_is_listed_once() {
    let mut objects = vec![obj(1, "A", &[]), obj(2, "B", &[]), obj(3, "C", &[])];
    objects[0].action = Some("URI".to_string());
    objects[1].action = Some("Launch".to_string());
    objects[2].action = Some("GoTo".to_string());
    let found = analyze_objects(&StructFacts { trailer_refs: vec![(1, 0), (2, 0), (3, 0)], objects, xmp: String::new(), encrypted: false });
    assert_eq!(found.suspicious_actions, vec!["Launch (objeto 2)", "URI (objeto 1)"]);
    assert!(!found.has_javascript);
}

#[test]
fn sizes_are_looked_up_by_number_and_the_metadata_passes_through() {
    let mut objects = vec![obj(1, "Catalog", &[]), obj(5, "Stream", &[]), obj(5, "Stream", &[])];
    objects[0].size = 40;
    objects[1].size = 12;
    objects[1].id = (5, 0);
    objects[2].size = 30;
    objects[2].id = (5, 1);
    let info = analyze_objects(&StructFacts {
        trailer_refs: vec![(1, 0)],
        objects,
        xmp: "<x:xmpmeta/>".to_string(),
        encrypted: true,
    });
    assert_eq!(info.object_size(5), Some(30));
    assert_eq!(info.object_size(1), Some(40));
    assert_eq!(info.object_size(2), None);
    assert_eq!(info.xmp, "<x:xmpmeta/>");
    assert!(info.encrypted);
}
