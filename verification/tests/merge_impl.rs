use lib::ast::AstStyle;
use lib::collision::Collision;

#[test]
fn check_arbitrary() {
    // The class `[color:blue]`, as the parser splits it.
    let style = AstStyle {
        source: "[color:blue]".to_string(),
        important: false,
        variants: vec![],
        elements: vec![],
        arbitrary: Some("color:blue".to_string()),
    };

    assert_eq!(
        Collision::check_arbitrary(style),
        Some(Collision {
            important: false,
            variants: vec![],
            collision_id: "color".to_string()
        })
    );
}
