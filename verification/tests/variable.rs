use engine::variable::{Collection, Mode, Palette, Scope, Variable};

fn mode(id: &str, name: &str) -> Mode {
    Mode {
        id: id.to_string(),
        name: name.to_string(),
    }
}

fn palette() -> Palette<u32> {
    Palette {
        collections: vec![
            Collection {
                id: "c1".to_string(),
                name: "Theme".to_string(),
                modes: vec![mode("light", "Light"), mode("dark", "Dark")],
            },
            Collection {
                id: "c2".to_string(),
                name: "Empty".to_string(),
                modes: vec![],
            },
        ],
        variables: vec![
            Variable {
                id: "v1".to_string(),
                collection: "c1".to_string(),
                name: "Background".to_string(),
                values: vec![
                    ("light".to_string(), 0xffffffff),
                    ("dark".to_string(), 0x000000ff),
                ],
            },
            Variable {
                id: "v2".to_string(),
                collection: "c2".to_string(),
                name: "Orphan".to_string(),
                values: vec![("light".to_string(), 7)],
            },
            Variable {
                id: "v3".to_string(),
                collection: "gone".to_string(),
                name: "Lost".to_string(),
                values: vec![("light".to_string(), 9)],
            },
            Variable {
                id: "v4".to_string(),
                collection: "c1".to_string(),
                name: "Partial".to_string(),
                values: vec![("light".to_string(), 4)],
            },
        ],
    }
}

#[test]
fn a_collection_not_chosen_uses_its_first_mode() {
    let p = palette();
    let modes: Vec<(String, String)> = vec![];
    let s = Scope {
        palette: &p,
        modes: &modes,
    };
    assert_eq!(s.value("v1"), Some(&0xffffffff));
}

#[test]
fn the_chosen_mode_gives_the_value() {
    let p = palette();
    let modes = vec![("c1".to_string(), "dark".to_string())];
    let s = Scope {
        palette: &p,
        modes: &modes,
    };
    assert_eq!(s.value("v1"), Some(&0x000000ff));
}

#[test]
fn a_chosen_mode_the_collection_lacks_falls_back_to_the_first() {
    let p = palette();
    let modes = vec![("c1".to_string(), "sepia".to_string())];
    let s = Scope {
        palette: &p,
        modes: &modes,
    };
    assert_eq!(s.value("v1"), Some(&0xffffffff));
}

#[test]
fn unknown_variables_collections_modes_and_values_resolve_to_nothing() {
    let p = palette();
    let modes = vec![("c1".to_string(), "dark".to_string())];
    let s = Scope {
        palette: &p,
        modes: &modes,
    };
    assert_eq!(s.value("nope"), None);
    assert_eq!(s.value("v2"), None);
    assert_eq!(s.value("v3"), None);
    assert_eq!(s.value("v4"), None);
}
