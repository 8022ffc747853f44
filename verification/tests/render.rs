use portgraph::render::mermaid::MermaidBuilder;
use portgraph::MermaidLayout;

#[test]
fn layout_config() {
    assert_eq!(MermaidLayout::default(), MermaidLayout::Elk);
    assert!(MermaidLayout::Elk.requires_config());
    assert!(!MermaidLayout::Dagre.requires_config());
    let mut b = MermaidBuilder::new();
    MermaidLayout::Dagre.emit_config(&mut b);
    assert!(b.lines().is_empty());
    MermaidLayout::Elk.emit_config(&mut b);
    assert_eq!(b.lines(), &vec!["layout: elk".to_string()]);
    b.push_line("flowchart LR");
    assert_eq!(b.lines().len(), 2);
}
