use kicase::model_paths::expand;

fn env() -> Vec<(String, String)> {
    vec![("KICAD9_3DMODEL_DIR".to_string(), "/opt/kicad/3dmodels".to_string())]
}

#[test]
fn the_project_variable_is_the_project_directory() {
    assert_eq!(
        expand("${KIPRJMOD}/parts/a.step", "/work/board", &env(), "/usr/share/kicad/3dmodels"),
        "/work/board/parts/a.step"
    );
}

#[test]
fn model_library_variables_come_from_the_environment_or_the_default() {
    let default = "/usr/share/kicad/3dmodels";
    assert_eq!(
        expand("${KICAD9_3DMODEL_DIR}/R.3dshapes/R.step", "/p", &env(), default),
        "/opt/kicad/3dmodels/R.3dshapes/R.step"
    );
    assert_eq!(
        expand("${KICAD8_3DMODEL_DIR}/R.step", "/p", &env(), default),
        "/usr/share/kicad/3dmodels/R.step"
    );
    assert_eq!(expand("${KISYS3DMOD}/R.step", "/p", &[], default), "/usr/share/kicad/3dmodels/R.step");
}

#[test]
fn unknown_variables_and_plain_paths_stay_as_written() {
    assert_eq!(expand("${OTHER}/x.step", "/p", &env(), "/d"), "${OTHER}/x.step");
    assert_eq!(expand("plain/x.step", "/p", &env(), "/d"), "plain/x.step");
    assert_eq!(expand("", "/p", &env(), "/d"), "");
    assert_eq!(expand("$x{y}", "/p", &env(), "/d"), "$x{y}");
    assert_eq!(expand("${KIPRJMOD}${KIPRJMOD}", "/p", &[], "/d"), "/p/p");
}

#[test]
fn an_unclosed_variable_ends_the_expansion() {
    // The text before the `${` is written, then the rest as it stands.
    assert_eq!(expand("a/${KIPRJMOD", "/p", &[], "/d"), "a/a/${KIPRJMOD");
    assert_eq!(expand("${KIPRJMOD}/b${X", "/p", &[], "/d"), "/p/b/b${X");
}
