use ferrum_core::component::ComponentRegistry;
use ferrum_core::config::FerrumConfig;
use ferrum_core::css::{use_style, CssBuilder, Style, Theme, UtilityClass};
use ferrum_core::debounce::PendingChanges;
use ferrum_core::props::Props;
use ferrum_core::routing::{
    link_attributes, use_navigate, use_params, use_query, LinkProps, Router,
};
use ferrum_core::text::{chars_of, string_of};

#[test]
fn props_keep_first_places() {
    let mut props = Props::new();
    assert!(props.is_empty());
    props.insert("a".to_string(), "1".to_string());
    props.insert("b".to_string(), "2".to_string());
    props.insert("a".to_string(), "3".to_string());
    assert_eq!(props.len(), 2);
    assert_eq!(props.key_at(0), "a");
    assert_eq!(props.value_at(0), "3");
    assert_eq!(props.key_at(1), "b");
    assert_eq!(props.get("a"), Some(&"3".to_string()));
    assert_eq!(props.get("c"), None);
    assert!(props.contains_key("b"));
    assert!(!props.contains_key("c"));
    assert_eq!(props.clone(), props);
    assert_eq!(Props::default(), Props::new());
}

#[test]
fn strings_and_characters_convert() {
    let v = chars_of("h\u{e9}llo \u{4e16}");
    assert_eq!(v.len(), 7);
    assert_eq!(string_of(&v), "h\u{e9}llo \u{4e16}");
}

#[test]
fn spacing_classes_match_quarter_rems() {
    for n in 0..=255u8 {
        assert_eq!(UtilityClass::P(n).to_css(), format!("padding: {}rem;", n as f64 * 0.25));
        assert_eq!(UtilityClass::M(n).to_css(), format!("margin: {}rem;", n as f64 * 0.25));
    }
    assert_eq!(UtilityClass::P(8).to_css(), "padding: 2rem;");
    assert_eq!(UtilityClass::M(1).to_css(), "margin: 0.25rem;");
    assert_eq!(UtilityClass::P(255).to_css(), "padding: 63.75rem;");
}

#[test]
fn utility_classes_have_their_declarations() {
    assert_eq!(UtilityClass::Flex.to_css(), "display: flex;");
    assert_eq!(UtilityClass::Hidden.to_css(), "display: none;");
    assert_eq!(UtilityClass::JustifyBetween.to_css(), "justify-content: space-between;");
    assert_eq!(UtilityClass::TextLg.to_css(), "font-size: 1.125rem;");
    assert_eq!(UtilityClass::BgBlue500.to_css(), "background-color: #3b82f6;");
    assert_eq!(UtilityClass::ShadowLg.to_css(), "box-shadow: 0 10px 15px -3px rgba(0, 0, 0, 0.1);");
    assert_eq!(UtilityClass::Opacity50.to_css(), "opacity: 0.5;");
}

#[test]
fn builder_joins_and_trims() {
    let css = CssBuilder::new()
        .add(UtilityClass::Flex)
        .add(UtilityClass::P(2))
        .custom("color: red;")
        .custom("  top: 0;  ")
        .build();
    assert_eq!(css, "display: flex; padding: 0.5rem; color: red;   top: 0;");
    assert_eq!(use_style().build(), "");
    assert_eq!(use_style().custom(" x ").build(), "x");
}

#[test]
fn style_builders() {
    let style = Style::new()
        .property("color", "red")
        .property("color", "blue")
        .hover(Style::new().property("a", "1"))
        .focus(Style::new())
        .hover(Style::new().property("a", "2"))
        .media("(min-width: 1px)", Style::new())
        .media("(min-width: 1px)", Style::new());
    assert_eq!(style.properties.get("color"), Some(&"blue".to_string()));
    assert_eq!(style.properties.len(), 1);
    assert_eq!(style.pseudo_classes.len(), 2);
    assert_eq!(style.pseudo_classes[0].0, ":hover");
    assert_eq!(style.pseudo_classes[0].1.properties.get("a"), Some(&"2".to_string()));
    assert_eq!(style.pseudo_classes[1].0, ":focus");
    assert_eq!(style.media_queries.len(), 2);
    assert_eq!(style.media_queries[1].0, "(min-width: 1px)");
}

#[test]
fn default_theme() {
    let theme = Theme::default();
    assert_eq!(theme.colors.primary, "#3b82f6");
    assert_eq!(theme.colors.text_secondary, "#6b7280");
    assert_eq!(theme.spacing.lg, "1.5rem");
    assert_eq!(theme.typography.font_family, "system-ui, -apple-system, sans-serif");
    assert_eq!(theme.typography.sizes.len(), 6);
    assert_eq!(theme.typography.sizes.get("2xl"), Some(&"1.5rem".to_string()));
    assert_eq!(theme.typography.sizes.key_at(0), "xs");
    assert_eq!(theme.typography.weights.len(), 3);
    assert_eq!(theme.typography.weights.get("medium"), Some(&"500".to_string()));
}

#[test]
fn registry_knows_what_was_registered() {
    let mut registry = ComponentRegistry::new();
    assert_eq!(registry.get_component("Button"), None);
    registry.register("Button".to_string());
    registry.register("Card".to_string());
    assert_eq!(registry.get_component("Button"), Some("registered"));
    assert_eq!(registry.get_component("Card"), Some("registered"));
    assert_eq!(registry.get_component("Other"), None);
}

#[test]
fn router_finds_the_first_exact_match() {
    let mut router = Router::new();
    assert_eq!(router.current_route().path, "/");
    assert_eq!(router.current_route().component, "Home");
    router.add_route("/about", "About");
    router.add_route("/about", "Other");
    router.add_route("/users", "Users");
    assert_eq!(router.find_route("/about").unwrap().component, "About");
    assert_eq!(router.find_route("/users").unwrap().component, "Users");
    assert!(router.find_route("/abou").is_none());
    assert!(!router.navigate("/missing"));
    assert_eq!(router.current_route().component, "Home");
    assert!(router.navigate("/users"));
    assert_eq!(router.current_route().path, "/users");
    assert!(use_params().is_empty());
    assert!(use_query().is_empty());
    let go = use_navigate();
    go("/anywhere");
    go("");
}

#[test]
fn link_attributes_in_order() {
    let with_class = link_attributes(&LinkProps {
        to: "/a".to_string(),
        class: Some("nav".to_string()),
        children: "A".to_string(),
    });
    assert_eq!(with_class.len(), 3);
    assert_eq!(with_class.get("href"), Some(&"/a".to_string()));
    assert_eq!(with_class.get("onclick"), Some(&"ferrum.navigate('/a')".to_string()));
    assert_eq!(with_class.get("class"), Some(&"nav".to_string()));
    let without = link_attributes(&LinkProps { to: "/b".to_string(), class: None, children: String::new() });
    assert_eq!(without.len(), 2);
}

#[test]
fn configuration() {
    let config = FerrumConfig::with_switches(true, false);
    assert_eq!(config.app_name, "Ferrum App");
    assert!(config.debug);
    assert!(!config.hot_reload);
    assert_eq!(config.log_level(), "debug");
    assert_eq!(FerrumConfig::with_switches(false, true).log_level(), "info");
    assert_eq!(config.clone(), config);
}

#[test]
fn changes_wait_until_their_file_is_quiet() {
    let mut pending = PendingChanges::new();
    pending.touch("a.frr".to_string(), 0);
    pending.touch("b.frr".to_string(), 100);
    pending.touch("a.frr".to_string(), 250);
    assert_eq!(pending.len(), 2);
    assert_eq!(pending.take_due(399, 300), Vec::<String>::new());
    assert_eq!(pending.take_due(400, 300), vec!["b.frr".to_string()]);
    assert_eq!(pending.len(), 1);
    pending.touch("c.frr".to_string(), 900);
    assert_eq!(pending.take_due(800, 300), vec!["a.frr".to_string()]);
    assert_eq!(pending.take_due(899, 1), Vec::<String>::new());
    assert_eq!(pending.take_due(899, 0), vec!["c.frr".to_string()]);
    assert_eq!(pending.len(), 0);
    pending.touch("x".to_string(), 5);
    pending.touch("y".to_string(), 5);
    assert_eq!(pending.take_due(5, 0), vec!["x".to_string(), "y".to_string()]);
}
