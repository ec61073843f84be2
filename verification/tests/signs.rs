use linked_hash_map::LinkedHashMap;
use signmaker::p3d::{Face, Vertex, LOD};
use signmaker::signs::{
    base_material_path, base_texture_path, config_text, folder_name, map_name, material_line,
    sign_file_name, texture_path, underscored,
};

#[test]
fn map_name_drops_extension() {
    assert_eq!(map_name("altis.hpp"), "altis");
    assert_eq!(map_name("altis.hpp.hpp"), "altis");
    assert_eq!(map_name("altis.cpp"), "altis.cpp");
    assert_eq!(map_name(".hpp"), "");
}

#[test]
fn folder_name_appends_suffix() {
    assert_eq!(folder_name("altis"), "altis_signs");
    assert_eq!(folder_name(""), "_signs");
}

#[test]
fn file_names_are_ascii_with_underscores() {
    assert_eq!(sign_file_name("Agios Dionysios"), "Agios_Dionysios");
    assert_eq!(sign_file_name("Köln am Rhein"), "Koln_am_Rhein");
    assert_eq!(sign_file_name("Æneid"), "AEneid");
    assert_eq!(sign_file_name(""), "");
    assert_eq!(underscored("a  b c"), "a__b_c");
    assert_eq!(underscored("abc"), "abc");
}

#[test]
fn paths_use_backslashes() {
    assert_eq!(texture_path("altis_signs", "Kavala"), "altis_signs\\data\\Kavala.paa");
    assert_eq!(base_texture_path("altis_signs"), "altis_signs\\data\\sign_base_co.paa");
    assert_eq!(base_material_path("altis_signs"), "altis_signs\\data\\sign_base.rvmat");
}

#[test]
fn material_line_names_the_folder() {
    assert_eq!(
        material_line("texture=\"FOLDERNAME\\data\\FOLDERNAME.paa\";", "x_signs"),
        "texture=\"x_signs\\data\\x_signs.paa\";"
    );
    assert_eq!(material_line("ambient[]={1,1,1,1};", "x_signs"), "ambient[]={1,1,1,1};");
}

#[test]
fn config_lists_each_town() {
    let towns = vec!["Kavala".to_string(), "Agios Dionysios".to_string()];
    assert_eq!(
        config_text("altis", &towns),
        "#include \"defines.hpp\"\nPREAMBLE(altis);\nSIGN(Kavala, altis);\nSIGN(Agios_Dionysios, altis);\n};"
    );
    assert_eq!(
        config_text("altis", &Vec::new()),
        "#include \"defines.hpp\"\nPREAMBLE(altis);\n};"
    );
}

#[test]
fn set_paths_changes_the_first_faces_only() {
    let face = |texture: &str| Face {
        vertices: vec![Vertex::new(), Vertex::new(), Vertex::new()],
        flags: 3,
        texture: texture.to_string(),
        material: "old.rvmat".to_string(),
    };
    let mut lod = LOD {
        version_major: 1,
        version_minor: 0,
        resolution: 0,
        points: Vec::new(),
        face_normals: Vec::new(),
        faces: vec![face("a"), face("b"), face("c")],
        taggs: LinkedHashMap::new(),
    };
    lod.set_paths(2, "new.paa", "new.rvmat");
    assert_eq!(lod.faces.len(), 3);
    assert_eq!(lod.faces[0].texture, "new.paa");
    assert_eq!(lod.faces[0].material, "new.rvmat");
    assert_eq!(lod.faces[1].texture, "new.paa");
    assert_eq!(lod.faces[2].texture, "c");
    assert_eq!(lod.faces[2].material, "old.rvmat");
    assert_eq!(lod.faces[1].flags, 3);
    assert_eq!(lod.faces[1].vertices.len(), 3);
    lod.set_paths(0, "x", "y");
    assert_eq!(lod.faces[0].texture, "new.paa");
}
