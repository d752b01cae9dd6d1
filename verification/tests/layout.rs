use std::collections::HashMap;
use woodpecker_ui::entity_mapping::WidgetMapper;
use woodpecker_ui::layout::measure::match_render_size;
use woodpecker_ui::layout::measure::measure_text;
use woodpecker_ui::layout::measure::FixedMeasure;
use woodpecker_ui::layout::measure::ImageMeasure;
use woodpecker_ui::layout::measure::LayoutMeasure;
use woodpecker_ui::layout::measure::LayoutRun;
use woodpecker_ui::layout::measure::TextMeasure;
use woodpecker_ui::layout::style::Edge;
use woodpecker_ui::layout::style::Size;
use woodpecker_ui::layout::style::Units;
use woodpecker_ui::layout::style::Vec2;
use woodpecker_ui::layout::style::WidgetNode;
use woodpecker_ui::layout::style::WidgetPosition;
use woodpecker_ui::layout::style::WidgetRender;
use woodpecker_ui::layout::style::WoodpeckerStyle;
use woodpecker_ui::layout::system::layout_equality;
use woodpecker_ui::layout::system::propagate;
use woodpecker_ui::layout::system::run;
use woodpecker_ui::layout::system::ReflectedLayout;
use woodpecker_ui::layout::system::WidgetLayout;
use woodpecker_ui::layout::system::WidgetPreviousLayout;
use woodpecker_ui::layout::ui_layout::Point;
use woodpecker_ui::layout::ui_layout::Rect;
use woodpecker_ui::layout::ui_layout::SolverCommand;
use woodpecker_ui::layout::ui_layout::SolverLayout;
use woodpecker_ui::layout::ui_layout::UiLayout;

const ROOT: u64 = 0;

fn name(s: &str) -> String {
    s.to_string()
}

fn solved(x: i32, y: i32, width: i32, height: i32) -> SolverLayout {
    SolverLayout {
        order: 0,
        location: Point { x, y },
        size: Size { width, height },
        content_size: Size { width, height },
        scrollbar_size: Size { width: 0, height: 0 },
        border: Rect { top: 0, right: 0, bottom: 0, left: 0 },
        padding: Rect { top: 0, right: 0, bottom: 0, left: 0 },
    }
}

fn widget(position: WidgetPosition) -> WidgetNode {
    WidgetNode {
        styles: WoodpeckerStyle { position, width: Units::Auto, height: Units::Auto },
        render: Some(WidgetRender::Quad),
        hidden: false,
    }
}

fn flow() -> WidgetNode {
    widget(WidgetPosition::Relative)
}

fn reflected(order: u32, x: i64, y: i64, width: i64, height: i64) -> ReflectedLayout {
    ReflectedLayout {
        order,
        location: Vec2 { x, y },
        size: Vec2 { x: width, y: height },
        content_size: Vec2 { x: width, y: height },
        scrollbar_size: Vec2 { x: 0, y: 0 },
        border: Edge { top: 0, right: 0, bottom: 0, left: 0 },
        padding: Edge { top: 0, right: 0, bottom: 0, left: 0 },
    }
}

#[test]
fn two_children_beside_each_other() {
    let mut mapper = WidgetMapper::new();
    let a = mapper.get_or_insert_entity_world(name("A"), ROOT, None, 0);
    let b = mapper.get_or_insert_entity_world(name("B"), ROOT, None, 1);

    let mut query = HashMap::new();
    query.insert(ROOT, flow());
    query.insert(a, flow());
    query.insert(b, flow());

    let mut ui_layout = UiLayout::new(ROOT);
    ui_layout.set_layout(ROOT, solved(10, 10, 200, 50));
    ui_layout.set_layout(a, solved(0, 0, 100, 50));
    ui_layout.set_layout(b, solved(100, 0, 100, 50));

    let updates = propagate(&mapper, &ui_layout, &query, &HashMap::new());

    assert_eq!(updates.layouts.len(), 3);
    assert_eq!(updates.layouts[&ROOT].0, reflected(0, 10, 10, 200, 50));
    assert_eq!(updates.layouts[&a].0, reflected(1, 10, 10, 100, 50));
    assert_eq!(updates.layouts[&b].0, reflected(1, 110, 10, 100, 50));
    assert_eq!(updates.layouts[&a].position(), Vec2 { x: 10, y: 10 });
    assert_eq!(updates.layouts[&b].position(), Vec2 { x: 110, y: 10 });
    assert_eq!(updates.layouts[&ROOT].0.order, 0);
    assert!(updates.layouts[&ROOT].0.order < updates.layouts[&a].0.order);
    assert!(updates.layouts[&ROOT].0.order < updates.layouts[&b].0.order);
    assert!(updates.previous.is_empty());
}

#[test]
fn location_is_the_sum_along_the_chain_of_parents() {
    let mut mapper = WidgetMapper::new();
    let a = mapper.get_or_insert_entity_world(name("A"), ROOT, None, 0);
    let b = mapper.get_or_insert_entity_world(name("B"), a, None, 0);
    let c = mapper.get_or_insert_entity_world(name("C"), b, None, 0);

    let mut query = HashMap::new();
    let mut ui_layout = UiLayout::new(ROOT);
    for (node, x, y) in [(ROOT, 5, -7), (a, 10, 20), (b, -3, 4), (c, 100, 1000)] {
        query.insert(node, flow());
        ui_layout.set_layout(node, solved(x, y, 1, 1));
    }

    let updates = propagate(&mapper, &ui_layout, &query, &HashMap::new());

    assert_eq!(updates.layouts[&ROOT].0.location, Vec2 { x: 5, y: -7 });
    assert_eq!(updates.layouts[&a].0.location, Vec2 { x: 15, y: 13 });
    assert_eq!(updates.layouts[&b].0.location, Vec2 { x: 12, y: 17 });
    assert_eq!(updates.layouts[&c].0.location, Vec2 { x: 112, y: 1017 });
    assert_eq!(updates.layouts[&ROOT].0.order, 0);
    assert_eq!(updates.layouts[&a].0.order, 1);
    assert_eq!(updates.layouts[&b].0.order, 2);
    assert_eq!(updates.layouts[&c].0.order, 3);
}

#[test]
fn locations_beyond_the_range_of_the_solver_add_up() {
    let mut mapper = WidgetMapper::new();
    let a = mapper.get_or_insert_entity_world(name("A"), ROOT, None, 0);
    let b = mapper.get_or_insert_entity_world(name("B"), a, None, 0);

    let mut query = HashMap::new();
    let mut ui_layout = UiLayout::new(ROOT);
    for node in [ROOT, a, b] {
        query.insert(node, flow());
        ui_layout.set_layout(node, solved(i32::MAX, i32::MIN, 1, 1));
    }

    let updates = propagate(&mapper, &ui_layout, &query, &HashMap::new());
    assert_eq!(
        updates.layouts[&b].0.location,
        Vec2 { x: 3 * 2147483647, y: -3 * 2147483648 }
    );
}

#[test]
fn fixed_node_keeps_the_location_of_the_solver() {
    let mut mapper = WidgetMapper::new();
    let a = mapper.get_or_insert_entity_world(name("A"), ROOT, None, 0);
    let popup = mapper.get_or_insert_entity_world(name("Popup"), a, None, 0);
    let label = mapper.get_or_insert_entity_world(name("Label"), popup, None, 0);

    let mut query = HashMap::new();
    query.insert(ROOT, flow());
    query.insert(a, flow());
    query.insert(popup, widget(WidgetPosition::Fixed));
    query.insert(label, flow());

    let mut ui_layout = UiLayout::new(ROOT);
    ui_layout.set_layout(ROOT, solved(10, 10, 800, 600));
    ui_layout.set_layout(a, solved(300, 200, 100, 100));
    ui_layout.set_layout(popup, solved(40, 50, 30, 30));
    ui_layout.set_layout(label, solved(2, 3, 10, 10));

    let updates = propagate(&mapper, &ui_layout, &query, &HashMap::new());

    assert_eq!(updates.layouts[&a].0.location, Vec2 { x: 310, y: 210 });
    assert_eq!(updates.layouts[&popup].0.location, Vec2 { x: 40, y: 50 });
    assert_eq!(updates.layouts[&popup].0.order, 2);
    assert_eq!(updates.layouts[&label].0.location, Vec2 { x: 42, y: 53 });
    assert_eq!(updates.layouts[&label].0.order, 3);
}

#[test]
fn absolute_node_is_placed_like_one_in_the_flow() {
    let mut mapper = WidgetMapper::new();
    let a = mapper.get_or_insert_entity_world(name("A"), ROOT, None, 0);

    let mut query = HashMap::new();
    query.insert(ROOT, flow());
    query.insert(a, widget(WidgetPosition::Absolute));
    let mut ui_layout = UiLayout::new(ROOT);
    ui_layout.set_layout(ROOT, solved(10, 10, 800, 600));
    ui_layout.set_layout(a, solved(5, 6, 1, 1));

    let updates = propagate(&mapper, &ui_layout, &query, &HashMap::new());
    assert_eq!(updates.layouts[&a].0.location, Vec2 { x: 15, y: 16 });
}

#[test]
fn fixed_root_keeps_its_location() {
    let mapper = WidgetMapper::new();
    let mut query = HashMap::new();
    query.insert(ROOT, widget(WidgetPosition::Fixed));
    let mut ui_layout = UiLayout::new(ROOT);
    ui_layout.set_layout(ROOT, solved(3, 4, 5, 6));
    let updates = propagate(&mapper, &ui_layout, &query, &HashMap::new());
    assert_eq!(updates.layouts[&ROOT].0, reflected(0, 3, 4, 5, 6));
}

#[test]
fn siblings_share_the_order_below_their_parent() {
    let mut mapper = WidgetMapper::new();
    let a = mapper.get_or_insert_entity_world(name("A"), ROOT, None, 0);
    let b = mapper.get_or_insert_entity_world(name("B"), ROOT, None, 1);
    let a0 = mapper.get_or_insert_entity_world(name("C"), a, None, 0);
    let b0 = mapper.get_or_insert_entity_world(name("C"), b, None, 0);

    let mut query = HashMap::new();
    let mut ui_layout = UiLayout::new(ROOT);
    for node in [ROOT, a, b, a0, b0] {
        query.insert(node, flow());
        ui_layout.set_layout(node, solved(1, 1, 1, 1));
    }
    let updates = propagate(&mapper, &ui_layout, &query, &HashMap::new());
    let order = |node: u64| updates.layouts[&node].0.order;
    assert_eq!(order(ROOT), 0);
    assert_eq!((order(a), order(b)), (1, 1));
    assert_eq!((order(a0), order(b0)), (2, 2));
    assert!(order(ROOT) < order(a) && order(a) < order(a0));
    assert!(order(ROOT) < order(b) && order(b) < order(b0));
}

#[test]
fn missing_and_hidden_nodes_end_their_branch() {
    let mut mapper = WidgetMapper::new();
    let a = mapper.get_or_insert_entity_world(name("A"), ROOT, None, 0);
    let b = mapper.get_or_insert_entity_world(name("B"), ROOT, None, 1);
    let c = mapper.get_or_insert_entity_world(name("C"), ROOT, None, 2);
    let d = mapper.get_or_insert_entity_world(name("D"), ROOT, None, 3);
    let a0 = mapper.get_or_insert_entity_world(name("E"), a, None, 0);
    let b0 = mapper.get_or_insert_entity_world(name("E"), b, None, 0);
    let c0 = mapper.get_or_insert_entity_world(name("E"), c, None, 0);
    let d0 = mapper.get_or_insert_entity_world(name("E"), d, None, 0);

    let mut query = HashMap::new();
    let mut ui_layout = UiLayout::new(ROOT);
    for node in [ROOT, a, b, c, d, a0, b0, c0, d0] {
        query.insert(node, flow());
        ui_layout.set_layout(node, solved(1, 2, 3, 4));
    }
    // a has no attached state, b is passed over, c has no box.
    query.remove(&a);
    query.insert(b, WidgetNode { hidden: true, ..flow() });
    ui_layout.remove_layout(c);

    let updates = propagate(&mapper, &ui_layout, &query, &HashMap::new());

    let mut laid_out: Vec<u64> = updates.layouts.keys().copied().collect();
    laid_out.sort();
    assert_eq!(laid_out, vec![ROOT, d, d0]);
    assert_eq!(updates.layouts[&d0].0, reflected(2, 3, 6, 3, 4));
}

#[test]
fn missing_root_yields_nothing() {
    let mut mapper = WidgetMapper::new();
    let a = mapper.get_or_insert_entity_world(name("A"), ROOT, None, 0);
    let mut query = HashMap::new();
    query.insert(a, flow());
    let mut ui_layout = UiLayout::new(ROOT);
    ui_layout.set_layout(ROOT, solved(1, 2, 3, 4));
    ui_layout.set_layout(a, solved(1, 2, 3, 4));
    let updates = propagate(&mapper, &ui_layout, &query, &HashMap::new());
    assert!(updates.layouts.is_empty());
    assert!(updates.previous.is_empty());
}

#[test]
fn walk_starts_at_the_root_of_the_solver() {
    let mut mapper = WidgetMapper::new();
    let a = mapper.get_or_insert_entity_world(name("A"), ROOT, None, 0);
    let a0 = mapper.get_or_insert_entity_world(name("B"), a, None, 0);
    let mut query = HashMap::new();
    let mut ui_layout = UiLayout::new(a);
    for node in [ROOT, a, a0] {
        query.insert(node, flow());
        ui_layout.set_layout(node, solved(10, 10, 1, 1));
    }
    assert_eq!(ui_layout.root_entity(), a);
    let updates = propagate(&mapper, &ui_layout, &query, &HashMap::new());
    assert_eq!(updates.layouts.len(), 2);
    assert_eq!(updates.layouts[&a].0, reflected(0, 10, 10, 1, 1));
    assert_eq!(updates.layouts[&a0].0, reflected(1, 20, 20, 1, 1));
}

#[test]
fn previous_layout_is_the_record_of_the_tick_before() {
    let mut mapper = WidgetMapper::new();
    let a = mapper.get_or_insert_entity_world(name("A"), ROOT, None, 0);
    let b = mapper.get_or_insert_entity_world(name("B"), ROOT, None, 1);

    let mut query = HashMap::new();
    let mut ui_layout = UiLayout::new(ROOT);
    for node in [ROOT, a] {
        query.insert(node, flow());
        ui_layout.set_layout(node, solved(10, 10, 20, 20));
    }

    let first = propagate(&mapper, &ui_layout, &query, &HashMap::new());
    assert!(first.previous.is_empty());

    // b appears, a moves; b also has a stale record that nothing reaches.
    ui_layout.set_layout(a, solved(30, 10, 20, 20));
    let mut laid_out = first.layouts;
    laid_out.insert(b, WidgetLayout(reflected(9, 9, 9, 9, 9)));
    let second = propagate(&mapper, &ui_layout, &query, &laid_out);

    assert_eq!(second.layouts[&a].0, reflected(1, 40, 20, 20, 20));
    assert_eq!(second.previous.len(), 2);
    assert_eq!(second.previous[&ROOT].0, reflected(0, 10, 10, 20, 20));
    assert_eq!(second.previous[&a].0, reflected(1, 20, 20, 20, 20));
    assert!(second.previous[&a] != second.layouts[&a]);
    assert!(second.previous[&ROOT] == second.layouts[&ROOT]);
}

#[test]
fn unchanged_tick_yields_the_same_layout_records() {
    let mut mapper = WidgetMapper::new();
    let a = mapper.get_or_insert_entity_world(name("A"), ROOT, None, 0);
    let a0 = mapper.get_or_insert_entity_world(name("B"), a, None, 0);
    let mut query = HashMap::new();
    let mut ui_layout = UiLayout::new(ROOT);
    for (i, node) in [ROOT, a, a0].into_iter().enumerate() {
        query.insert(node, flow());
        ui_layout.set_layout(node, solved(7 * i as i32, 3, 20, 20));
    }
    let first = propagate(&mapper, &ui_layout, &query, &HashMap::new());

    mapper.clear_added_this_frame();
    assert_eq!(mapper.get_or_insert_entity_world(name("A"), ROOT, None, 0), a);
    assert_eq!(mapper.get_or_insert_entity_world(name("B"), a, None, 0), a0);
    let second = propagate(&mapper, &ui_layout, &query, &first.layouts);

    assert_eq!(second.layouts.len(), first.layouts.len());
    for (node, layout) in first.layouts.iter() {
        assert_eq!(second.layouts[node].0, layout.0);
        assert_eq!(second.previous[node].0, layout.0);
    }
}

fn commands_of_first_walk(
    mapper: &WidgetMapper,
    query: &HashMap<u64, WidgetNode>,
    ui_layout: &mut UiLayout,
    changed: Vec<u64>,
    root: u64,
) -> Vec<SolverCommand> {
    run(mapper, query, ui_layout, &changed, root);
    ui_layout.take_commands()
}

#[test]
fn first_walk_registers_parents_before_children() {
    let mut mapper = WidgetMapper::new();
    let a = mapper.get_or_insert_entity_world(name("A"), ROOT, None, 0);
    let b = mapper.get_or_insert_entity_world(name("B"), ROOT, None, 1);
    let a0 = mapper.get_or_insert_entity_world(name("C"), a, None, 0);
    let a1 = mapper.get_or_insert_entity_world(name("D"), a, None, 1);

    let mut query = HashMap::new();
    for node in [ROOT, a, b, a0, a1] {
        query.insert(node, flow());
    }
    let mut ui_layout = UiLayout::new(99);
    let commands = commands_of_first_walk(&mapper, &query, &mut ui_layout, vec![], ROOT);

    let upsert = |entity: u64| SolverCommand::UpsertNode { entity, measure: None };
    assert_eq!(
        commands,
        vec![
            upsert(ROOT),
            upsert(a),
            upsert(a0),
            upsert(a1),
            upsert(b),
            SolverCommand::Compute { root: ROOT, width: 1, height: 1 },
        ]
    );
    assert_eq!(ui_layout.root_entity(), ROOT);
    for node in [ROOT, a, b, a0, a1] {
        assert_eq!(ui_layout.get_layout(node), Some(SolverLayout::default()));
    }
    assert_eq!(ui_layout.get_layout(99), None);
    assert_eq!(ui_layout.take_commands(), vec![]);
}

#[test]
fn first_walk_passes_over_hidden_and_missing_branches() {
    let mut mapper = WidgetMapper::new();
    let a = mapper.get_or_insert_entity_world(name("A"), ROOT, None, 0);
    let b = mapper.get_or_insert_entity_world(name("B"), ROOT, None, 1);
    let c = mapper.get_or_insert_entity_world(name("C"), ROOT, None, 2);
    let a0 = mapper.get_or_insert_entity_world(name("D"), a, None, 0);
    let b0 = mapper.get_or_insert_entity_world(name("D"), b, None, 0);

    let mut query = HashMap::new();
    query.insert(ROOT, flow());
    query.insert(a, WidgetNode { hidden: true, ..flow() });
    query.insert(a0, flow());
    query.insert(b0, flow());
    query.insert(c, flow());

    let mut ui_layout = UiLayout::new(ROOT);
    let commands = commands_of_first_walk(&mapper, &query, &mut ui_layout, vec![], ROOT);
    let upsert = |entity: u64| SolverCommand::UpsertNode { entity, measure: None };
    assert_eq!(
        commands,
        vec![upsert(ROOT), upsert(c), SolverCommand::Compute { root: ROOT, width: 1, height: 1 }]
    );
    assert_eq!(ui_layout.get_layout(a0), None);
    assert_eq!(ui_layout.get_layout(b0), None);
}

#[test]
fn first_walk_measures_content_against_the_box_of_the_parent() {
    let mut mapper = WidgetMapper::new();
    let panel = mapper.get_or_insert_entity_world(name("Panel"), ROOT, None, 0);
    let text = mapper.get_or_insert_entity_world(name("Text"), panel, None, 0);
    let image = mapper.get_or_insert_entity_world(name("Image"), panel, None, 1);
    let loading = mapper.get_or_insert_entity_world(name("Image"), panel, None, 2);
    let fresh = mapper.get_or_insert_entity_world(name("Panel"), ROOT, None, 1);
    let fresh_text = mapper.get_or_insert_entity_world(name("Text"), fresh, None, 0);

    let with = |render: WidgetRender| WidgetNode { render: Some(render), ..flow() };
    let mut query = HashMap::new();
    query.insert(ROOT, with(WidgetRender::Text { word_wrap: false }));
    query.insert(panel, WidgetNode { render: None, ..flow() });
    query.insert(text, with(WidgetRender::Text { word_wrap: true }));
    query.insert(image, with(WidgetRender::Image { size: Some(Size { width: 64, height: 32 }) }));
    query.insert(loading, with(WidgetRender::Svg { size: None }));
    query.insert(fresh, with(WidgetRender::Custom));
    query.insert(fresh_text, with(WidgetRender::Text { word_wrap: false }));

    let mut ui_layout = UiLayout::new(ROOT);
    ui_layout.set_layout(panel, solved(0, 0, 300, 200));
    ui_layout.set_layout(text, solved(0, 0, 1, 1));

    let commands = commands_of_first_walk(&mapper, &query, &mut ui_layout, vec![], ROOT);
    let upsert = |entity: u64, measure: Option<LayoutMeasure>| SolverCommand::UpsertNode {
        entity,
        measure,
    };
    assert_eq!(
        commands,
        vec![
            // The root had no box of its own yet.
            upsert(ROOT, None),
            upsert(panel, None),
            upsert(
                text,
                Some(LayoutMeasure::Text(TextMeasure {
                    width: 300,
                    height: 100200,
                    word_wrap: true
                }))
            ),
            upsert(
                image,
                Some(LayoutMeasure::Image(ImageMeasure { size: Size { width: 64, height: 32 } }))
            ),
            upsert(loading, None),
            upsert(fresh, None),
            // Its parent got the zero box when it was registered.
            upsert(
                fresh_text,
                Some(LayoutMeasure::Text(TextMeasure {
                    width: 0,
                    height: 100000,
                    word_wrap: false
                }))
            ),
            SolverCommand::Compute { root: ROOT, width: 1, height: 1 },
        ]
    );
    assert_eq!(ui_layout.get_layout(panel), Some(solved(0, 0, 300, 200)));
    assert_eq!(ui_layout.get_layout(fresh), Some(SolverLayout::default()));
}

#[test]
fn first_walk_measures_the_root_against_its_own_box() {
    let mapper = WidgetMapper::new();
    let mut query = HashMap::new();
    query.insert(
        ROOT,
        WidgetNode { render: Some(WidgetRender::Text { word_wrap: true }), ..flow() },
    );
    let mut ui_layout = UiLayout::new(ROOT);
    ui_layout.set_layout(ROOT, solved(0, 0, 640, 480));
    let commands = commands_of_first_walk(&mapper, &query, &mut ui_layout, vec![], ROOT);
    assert_eq!(
        commands[0],
        SolverCommand::UpsertNode {
            entity: ROOT,
            measure: Some(LayoutMeasure::Text(TextMeasure {
                width: 640,
                height: 100480,
                word_wrap: true
            })),
        }
    );
}

#[test]
fn first_walk_registers_fixed_children_under_the_root() {
    let mut mapper = WidgetMapper::new();
    let a = mapper.get_or_insert_entity_world(name("A"), ROOT, None, 0);
    let flowing = mapper.get_or_insert_entity_world(name("B"), a, None, 0);
    let fixed = mapper.get_or_insert_entity_world(name("C"), a, None, 1);
    let absolute = mapper.get_or_insert_entity_world(name("D"), a, None, 2);
    let hidden = mapper.get_or_insert_entity_world(name("E"), a, None, 3);
    let unknown = mapper.get_or_insert_entity_world(name("F"), a, None, 4);
    let hidden_fixed = mapper.get_or_insert_entity_world(name("G"), a, None, 5);
    let fixed_too = mapper.get_or_insert_entity_world(name("H"), a, None, 6);

    let mut query = HashMap::new();
    query.insert(ROOT, flow());
    query.insert(a, flow());
    query.insert(flowing, flow());
    query.insert(fixed, widget(WidgetPosition::Fixed));
    query.insert(absolute, widget(WidgetPosition::Absolute));
    query.insert(hidden, WidgetNode { hidden: true, ..flow() });
    query.insert(hidden_fixed, WidgetNode { hidden: true, ..widget(WidgetPosition::Fixed) });
    query.insert(fixed_too, widget(WidgetPosition::Fixed));

    let mut ui_layout = UiLayout::new(ROOT);
    let commands = commands_of_first_walk(&mapper, &query, &mut ui_layout, vec![a, ROOT], ROOT);
    let edges: Vec<SolverCommand> = commands
        .into_iter()
        .filter(|c| !matches!(c, SolverCommand::UpsertNode { .. }))
        .collect();
    assert_eq!(
        edges,
        vec![
            SolverCommand::AddChildren { entity: a, children: vec![flowing, absolute, unknown] },
            SolverCommand::AddChild { parent: ROOT, child: fixed },
            SolverCommand::AddChild { parent: ROOT, child: fixed_too },
            SolverCommand::AddChildren { entity: ROOT, children: vec![a] },
            SolverCommand::Compute { root: ROOT, width: 1, height: 1 },
        ]
    );
}

#[test]
fn first_walk_solves_for_the_size_of_the_root() {
    let mapper = WidgetMapper::new();
    let sized = |width: Units, height: Units| WidgetNode {
        styles: WoodpeckerStyle { position: WidgetPosition::Relative, width, height },
        render: None,
        hidden: false,
    };
    for (width, height, expected) in [
        (Units::Pixels(800), Units::Pixels(600), (800, 600)),
        (Units::Auto, Units::Pixels(600), (1, 600)),
        (Units::Percentage(50), Units::Auto, (1, 1)),
        (Units::Pixels(0), Units::Percentage(100), (0, 1)),
    ] {
        let mut query = HashMap::new();
        query.insert(5, sized(width, height));
        let mut ui_layout = UiLayout::new(ROOT);
        let commands = commands_of_first_walk(&mapper, &query, &mut ui_layout, vec![], 5);
        assert_eq!(
            commands,
            vec![
                SolverCommand::UpsertNode { entity: 5, measure: None },
                SolverCommand::Compute { root: 5, width: expected.0, height: expected.1 },
            ]
        );
    }
}

#[test]
fn first_walk_without_a_root_solves_nothing() {
    let mut mapper = WidgetMapper::new();
    let a = mapper.get_or_insert_entity_world(name("A"), ROOT, None, 0);
    let mut query = HashMap::new();
    query.insert(a, flow());

    let mut ui_layout = UiLayout::new(ROOT);
    let commands = commands_of_first_walk(&mapper, &query, &mut ui_layout, vec![ROOT], ROOT);
    assert_eq!(commands, vec![SolverCommand::AddChildren { entity: ROOT, children: vec![a] }]);

    query.insert(ROOT, WidgetNode { hidden: true, ..flow() });
    let commands = commands_of_first_walk(&mapper, &query, &mut ui_layout, vec![], ROOT);
    assert_eq!(commands, vec![]);
}

#[test]
fn solver_requests_wait_in_order_until_taken() {
    let mut ui_layout = UiLayout::new(ROOT);
    ui_layout.upsert_node(3, None);
    ui_layout.add_children(3, vec![4, 5]);
    ui_layout.add_child(0, 6);
    ui_layout.compute(0, 10, 20);
    assert_eq!(
        ui_layout.take_commands(),
        vec![
            SolverCommand::UpsertNode { entity: 3, measure: None },
            SolverCommand::AddChildren { entity: 3, children: vec![4, 5] },
            SolverCommand::AddChild { parent: 0, child: 6 },
            SolverCommand::Compute { root: 0, width: 10, height: 20 },
        ]
    );
    assert_eq!(ui_layout.take_commands(), vec![]);
}

#[test]
fn upsert_keeps_the_box_of_a_known_node() {
    let mut ui_layout = UiLayout::new(ROOT);
    ui_layout.set_layout(3, solved(1, 2, 3, 4));
    ui_layout.upsert_node(3, None);
    ui_layout.upsert_node(4, None);
    assert_eq!(ui_layout.get_layout(3), Some(solved(1, 2, 3, 4)));
    assert_eq!(ui_layout.get_layout(4), Some(SolverLayout::default()));
    ui_layout.remove_layout(3);
    assert_eq!(ui_layout.get_layout(3), None);
    ui_layout.set_root_entity(8);
    assert_eq!(ui_layout.root_entity(), 8);
}

#[test]
fn match_render_size_by_content() {
    let parent = solved(5, 5, 300, 200);
    assert_eq!(match_render_size(&WidgetRender::Quad, &parent), None);
    assert_eq!(match_render_size(&WidgetRender::Custom, &parent), None);
    assert_eq!(match_render_size(&WidgetRender::Image { size: None }, &parent), None);
    assert_eq!(match_render_size(&WidgetRender::Svg { size: None }, &parent), None);
    assert_eq!(
        match_render_size(
            &WidgetRender::Image { size: Some(Size { width: 16, height: 9 }) },
            &parent
        ),
        Some(LayoutMeasure::Image(ImageMeasure { size: Size { width: 16, height: 9 } }))
    );
    assert_eq!(
        match_render_size(&WidgetRender::Svg { size: Some(Size { width: 24, height: 24 }) }, &parent),
        Some(LayoutMeasure::Image(ImageMeasure { size: Size { width: 24, height: 24 } }))
    );
    assert_eq!(
        match_render_size(&WidgetRender::Text { word_wrap: true }, &parent),
        Some(LayoutMeasure::Text(TextMeasure { width: 300, height: 100200, word_wrap: true }))
    );
}

#[test]
fn text_box_of_the_largest_parent_does_not_overflow() {
    let parent = solved(0, 0, i32::MAX, i32::MAX);
    assert_eq!(
        match_render_size(&WidgetRender::Text { word_wrap: false }, &parent),
        Some(LayoutMeasure::Text(TextMeasure {
            width: 2147483647,
            height: 2147583647,
            word_wrap: false
        }))
    );
}

#[test]
fn measure_text_is_widest_line_by_sum_of_heights() {
    let run = |line_w: i32, line_height: i32| LayoutRun { line_w, line_height };
    assert_eq!(measure_text(&vec![]), FixedMeasure { width: 0, height: 0 });
    assert_eq!(
        measure_text(&vec![run(120, 18), run(200, 18), run(80, 20)]),
        FixedMeasure { width: 200, height: 56 }
    );
    assert_eq!(measure_text(&vec![run(-5, 10)]), FixedMeasure { width: 0, height: 10 });
    assert_eq!(
        measure_text(&vec![run(i32::MAX, i32::MAX), run(i32::MAX, i32::MAX)]),
        FixedMeasure { width: 2147483647, height: 4294967294 }
    );
}

#[test]
fn units_value_or() {
    assert_eq!(Units::Pixels(12).value_or(1), 12);
    assert_eq!(Units::Percentage(50).value_or(1), 1);
    assert_eq!(Units::Auto.value_or(1), 1);
    assert_eq!(Units::Auto.value_or(-7), -7);
}

#[test]
fn reflected_layout_from_solver_layout() {
    let layout = SolverLayout {
        order: 4,
        location: Point { x: -1, y: 2 },
        size: Size { width: 3, height: 4 },
        content_size: Size { width: 5, height: 6 },
        scrollbar_size: Size { width: 7, height: 8 },
        border: Rect { top: 9, right: 10, bottom: 11, left: 12 },
        padding: Rect { top: 13, right: 14, bottom: 15, left: 16 },
    };
    assert_eq!(
        ReflectedLayout::from(&layout),
        ReflectedLayout {
            order: 4,
            location: Vec2 { x: -1, y: 2 },
            size: Vec2 { x: 3, y: 4 },
            content_size: Vec2 { x: 5, y: 6 },
            scrollbar_size: Vec2 { x: 7, y: 8 },
            border: Edge { top: 9, right: 10, bottom: 11, left: 12 },
            padding: Edge { top: 13, right: 14, bottom: 15, left: 16 },
        }
    );
}

#[test]
fn widget_layout_getters() {
    let layout = WidgetLayout(ReflectedLayout {
        content_size: Vec2 { x: 50, y: 60 },
        ..reflected(2, 10, 20, 30, 40)
    });
    assert_eq!(layout.position(), Vec2 { x: 10, y: 20 });
    assert_eq!(layout.width(), 30);
    assert_eq!(layout.height(), 40);
    assert_eq!(layout.content_width(), 50);
    assert_eq!(layout.content_height(), 60);
}

#[test]
fn layout_equality_compares_the_box_only() {
    let base = reflected(0, 1, 2, 3, 4);
    let other_order = ReflectedLayout {
        order: 9,
        border: Edge { top: 1, right: 1, bottom: 1, left: 1 },
        padding: Edge { top: 2, right: 2, bottom: 2, left: 2 },
        scrollbar_size: Vec2 { x: 5, y: 5 },
        ..base
    };
    assert!(layout_equality(&base, &other_order));
    assert!(WidgetLayout(base) == WidgetLayout(other_order));
    assert!(WidgetPreviousLayout(base) == WidgetPreviousLayout(other_order));
    assert!(WidgetPreviousLayout(base) == WidgetLayout(other_order));

    let moved = ReflectedLayout { location: Vec2 { x: 1, y: 3 }, ..base };
    let resized = ReflectedLayout { size: Vec2 { x: 3, y: 5 }, ..base };
    let overflowing = ReflectedLayout { content_size: Vec2 { x: 4, y: 4 }, ..base };
    for changed in [moved, resized, overflowing] {
        assert!(!layout_equality(&base, &changed));
        assert!(WidgetLayout(base) != WidgetLayout(changed));
        assert!(WidgetPreviousLayout(base) != WidgetLayout(changed));
    }
}
