use flatten::bench::{
    is_svg_file_name, select_stage, Cli, Commands, StageHit, SvgArgs, VelloTestScenesArgs,
};

fn s(text: &str) -> String {
    String::from(text)
}

#[test]
fn test_scenes_have_no_suffix() {
    let c = Commands::VelloTestScenes(VelloTestScenesArgs { matches: None });
    assert_eq!(c.suffix(), "");
    assert_eq!(c.matches(), &None);
}

#[test]
fn svg_scenes_have_svg_suffix() {
    let c = Commands::Svg(SvgArgs { directory: s("svgs"), matches: Some(s("tiger,paris")) });
    assert_eq!(c.suffix(), ".svg");
    assert_eq!(c.matches(), &Some(s("tiger,paris")));
}

#[test]
fn cli_keeps_what_it_was_given() {
    let cli = Cli::new(
        Some(s("flatten")),
        Commands::VelloTestScenes(VelloTestScenesArgs { matches: Some(s("mmark,longpathdash")) }),
    );
    assert_eq!(cli.stage(), &Some(s("flatten")));
    assert_eq!(cli.command().matches(), &Some(s("mmark,longpathdash")));
    assert_eq!(cli.command().suffix(), "");
}

#[test]
fn unnested_query_is_taken_by_its_own_label() {
    assert_eq!(select_stage(&s("flatten"), &vec![], &s("flatten")), Some(StageHit::Own));
    assert_eq!(select_stage(&s("coarse"), &vec![], &s("flatten")), None);
}

#[test]
fn nested_query_hides_its_parent() {
    let nested = vec![s("coarse"), s("fine")];
    assert_eq!(select_stage(&s("flatten"), &nested, &s("flatten")), None);
    assert_eq!(select_stage(&s("render"), &nested, &s("fine")), Some(StageHit::Nested(1)));
    assert_eq!(select_stage(&s("render"), &nested, &s("coarse")), Some(StageHit::Nested(0)));
}

#[test]
fn last_nested_match_wins() {
    let nested = vec![s("flatten"), s("fine"), s("flatten"), s("coarse")];
    assert_eq!(select_stage(&s("render"), &nested, &s("flatten")), Some(StageHit::Nested(2)));
}

#[test]
fn svg_file_names() {
    assert!(is_svg_file_name("a.svg"));
    assert!(is_svg_file_name("tiger.svg"));
    assert!(is_svg_file_name("archive.tar.svg"));
    assert!(is_svg_file_name("..svg"));
    assert!(is_svg_file_name("\u{e9}t\u{e9}.svg"));
}

#[test]
fn other_file_names() {
    assert!(!is_svg_file_name(""));
    assert!(!is_svg_file_name("svg"));
    assert!(!is_svg_file_name(".svg"));
    assert!(!is_svg_file_name("a.SVG"));
    assert!(!is_svg_file_name("a.svg.txt"));
    assert!(!is_svg_file_name("a.svgz"));
    assert!(!is_svg_file_name("asvg"));
}
