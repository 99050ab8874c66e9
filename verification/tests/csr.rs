use mycos::chunk::{Action, Connection, MycosChunk, Section, Trigger};
use mycos::csr::{build_csr, effect_precedes, group_wires, sort_range, Effect, Wire, CSR};
use mycos::layout::bit_to_word;

fn conn(
    from_section: Section,
    from_index: u32,
    to_section: Section,
    to_index: u32,
    trigger: Trigger,
    action: Action,
    order_tag: u32,
) -> Connection {
    Connection { from_section, to_section, trigger, action, from_index, to_index, order_tag }
}

fn check_shape(chunk: &MycosChunk, csr: &CSR) {
    let src_total = (chunk.input_count + chunk.internal_count) as usize;
    assert_eq!(csr.offs_on.len(), src_total + 1);
    assert_eq!(csr.offs_off.len(), src_total + 1);
    assert_eq!(csr.offs_tog.len(), src_total + 1);
    assert_eq!(csr.effects.len(), chunk.connections.len());

    let count_on =
        chunk.connections.iter().filter(|c| matches!(c.trigger, Trigger::On)).count() as u32;
    let count_off =
        chunk.connections.iter().filter(|c| matches!(c.trigger, Trigger::Off)).count() as u32;
    let count_tog =
        chunk.connections.iter().filter(|c| matches!(c.trigger, Trigger::Toggle)).count() as u32;
    assert_eq!(csr.offs_on[src_total], count_on);
    assert_eq!(csr.offs_off[src_total], count_on + count_off);
    assert_eq!(csr.offs_tog[src_total], count_on + count_off + count_tog);

    for i in 0..src_total {
        assert!(csr.offs_on[i] <= csr.offs_on[i + 1]);
        assert!(csr.offs_off[i] <= csr.offs_off[i + 1]);
        assert!(csr.offs_tog[i] <= csr.offs_tog[i + 1]);

        let slice = &csr.effects[csr.offs_on[i] as usize..csr.offs_on[i + 1] as usize];
        assert!(slice.windows(2).all(|w| w[0].to_word <= w[1].to_word));
        let slice = &csr.effects[csr.offs_off[i] as usize..csr.offs_off[i + 1] as usize];
        assert!(slice.windows(2).all(|w| w[0].to_word <= w[1].to_word));
        let slice = &csr.effects[csr.offs_tog[i] as usize..csr.offs_tog[i + 1] as usize];
        assert!(slice.windows(2).all(|w| w[0].to_word <= w[1].to_word));
    }

    let total = csr.effects.len() as u32;
    assert_eq!(csr.offs_tog[src_total], total);
    for eff in &csr.effects {
        let (w, m) = bit_to_word(eff.to_bit);
        assert_eq!((w, m), (eff.to_word, eff.mask));
        if eff.to_is_internal {
            assert!(eff.to_bit < chunk.internal_count);
        } else {
            assert!(eff.to_bit < chunk.output_count);
        }
    }
}

#[test]
fn build_all_fixtures() {
    let tiny = MycosChunk {
        input_bits: vec![0],
        output_bits: vec![0],
        internal_bits: vec![0],
        input_count: 1,
        output_count: 1,
        internal_count: 1,
        connections: vec![
            conn(Section::Input, 0, Section::Internal, 0, Trigger::On, Action::Enable, 0),
            conn(Section::Internal, 0, Section::Output, 0, Trigger::On, Action::Enable, 0),
        ],
        name: None,
        note: None,
        build_hash: None,
    };
    check_shape(&tiny, &build_csr(&tiny));

    let mixed = MycosChunk {
        input_bits: vec![0],
        output_bits: vec![0; 9],
        internal_bits: vec![0; 5],
        input_count: 2,
        output_count: 70,
        internal_count: 40,
        connections: vec![
            conn(Section::Internal, 39, Section::Output, 69, Trigger::Toggle, Action::Toggle, 3),
            conn(Section::Input, 1, Section::Internal, 33, Trigger::Off, Action::Disable, 2),
            conn(Section::Internal, 0, Section::Internal, 1, Trigger::On, Action::Enable, 1),
            conn(Section::Input, 1, Section::Internal, 2, Trigger::Off, Action::Enable, 9),
            conn(Section::Internal, 39, Section::Output, 3, Trigger::Toggle, Action::Enable, 0),
            conn(Section::Input, 0, Section::Internal, 7, Trigger::On, Action::Toggle, 0),
        ],
        name: None,
        note: None,
        build_hash: None,
    };
    let csr = build_csr(&mixed);
    check_shape(&mixed, &csr);
    assert_eq!(csr.offs_on[0], 0);
    assert_eq!(csr.offs_on[1], 1);
    assert_eq!(csr.offs_on[2], 1);
    assert_eq!(csr.offs_on[3], 2);
    assert_eq!(csr.offs_on[42], 2);
    assert_eq!(csr.offs_off[0], 2);
    assert_eq!(csr.offs_off[1], 2);
    assert_eq!(csr.offs_off[2], 4);
    assert_eq!(csr.offs_off[42], 4);
    assert_eq!(csr.offs_tog[0], 4);
    assert_eq!(csr.offs_tog[41], 4);
    assert_eq!(csr.offs_tog[42], 6);
    let bits: Vec<u32> = csr.effects.iter().map(|e| e.to_bit).collect();
    assert_eq!(bits, vec![7, 1, 2, 33, 3, 69]);
    assert!(csr.effects[0].to_is_internal);
    assert!(!csr.effects[4].to_is_internal);
    assert_eq!(csr.effects[5].action, Action::Toggle);
    assert_eq!(csr.effects[3].order_tag, 2);
}

#[test]
fn effects_sorted_by_to_word_and_order_tag() {
    let chunk = MycosChunk {
        input_bits: vec![0],
        output_bits: vec![],
        internal_bits: vec![0; 12],
        input_count: 1,
        output_count: 0,
        internal_count: 96,
        connections: vec![
            Connection {
                from_section: Section::Input,
                to_section: Section::Internal,
                trigger: Trigger::On,
                action: Action::Enable,
                from_index: 0,
                to_index: 5,
                order_tag: 0,
            },
            Connection {
                from_section: Section::Input,
                to_section: Section::Internal,
                trigger: Trigger::On,
                action: Action::Enable,
                from_index: 0,
                to_index: 1,
                order_tag: 1,
            },
            Connection {
                from_section: Section::Input,
                to_section: Section::Internal,
                trigger: Trigger::On,
                action: Action::Enable,
                from_index: 0,
                to_index: 33,
                order_tag: 2,
            },
            Connection {
                from_section: Section::Input,
                to_section: Section::Internal,
                trigger: Trigger::On,
                action: Action::Enable,
                from_index: 0,
                to_index: 65,
                order_tag: 3,
            },
            Connection {
                from_section: Section::Input,
                to_section: Section::Internal,
                trigger: Trigger::On,
                action: Action::Enable,
                from_index: 0,
                to_index: 40,
                order_tag: 4,
            },
            Connection {
                from_section: Section::Input,
                to_section: Section::Internal,
                trigger: Trigger::On,
                action: Action::Enable,
                from_index: 0,
                to_index: 41,
                order_tag: 5,
            },
        ],
        name: None,
        note: None,
        build_hash: None,
    };
    let csr = build_csr(&chunk);
    let start = csr.offs_on[0] as usize;
    let end = csr.offs_on[1] as usize;
    let slice = &csr.effects[start..end];
    assert!(slice.windows(2).all(|w| w[0].to_word <= w[1].to_word));
    for w in slice.windows(2) {
        if w[0].to_word == w[1].to_word {
            assert!(w[0].order_tag <= w[1].order_tag);
        }
    }
    let bits: Vec<u32> = slice.iter().map(|e| e.to_bit).collect();
    assert_eq!(bits, vec![5, 1, 33, 40, 41, 65]);
}

fn effect(to_bit: u32, order_tag: u32, action: Action) -> Effect {
    let (to_word, mask) = bit_to_word(to_bit);
    Effect { to_word, mask, action, order_tag, to_is_internal: true, to_bit }
}

#[test]
fn sorting_is_stable_and_local() {
    let mut v = vec![
        effect(70, 0, Action::Enable),
        effect(40, 5, Action::Enable),
        effect(33, 5, Action::Disable),
        effect(1, 9, Action::Toggle),
        effect(63, 5, Action::Toggle),
        effect(2, 0, Action::Enable),
        effect(0, 0, Action::Enable),
    ];
    let before = v.clone();
    sort_range(&mut v, 1, 6);
    assert_eq!(v[0], before[0]);
    assert_eq!(v[6], before[6]);
    let bits: Vec<u32> = v[1..6].iter().map(|e| e.to_bit).collect();
    assert_eq!(bits, vec![2, 1, 40, 33, 63]);
    sort_range(&mut v, 3, 3);
    sort_range(&mut v, 7, 7);
    assert_eq!(v[3], before[1]);
}

#[test]
fn bucket_order_is_word_then_tag() {
    let a = effect(31, 7, Action::Enable);
    let b = effect(32, 0, Action::Enable);
    let c = effect(0, 7, Action::Disable);
    let d = effect(5, 8, Action::Enable);
    assert!(effect_precedes(&a, &b));
    assert!(!effect_precedes(&b, &a));
    assert!(effect_precedes(&a, &c));
    assert!(effect_precedes(&c, &a));
    assert!(effect_precedes(&a, &d));
    assert!(!effect_precedes(&d, &a));
}

#[test]
fn default_effect_is_blank() {
    let e = Effect::default();
    assert_eq!(
        e,
        Effect {
            to_word: 0,
            mask: 0,
            action: Action::Enable,
            order_tag: 0,
            to_is_internal: false,
            to_bit: 0
        }
    );
}

#[test]
fn grouping_without_wires_or_sources() {
    let csr = group_wires(&Vec::new(), 0);
    assert_eq!(csr.offs_on, vec![0]);
    assert_eq!(csr.offs_off, vec![0]);
    assert_eq!(csr.offs_tog, vec![0]);
    assert!(csr.effects.is_empty());
    let csr = group_wires(&Vec::new(), 3);
    assert_eq!(csr.offs_tog, vec![0, 0, 0, 0]);
}

#[test]
fn grouping_keeps_ties_in_wire_order() {
    let wires = vec![
        Wire { source: 1, trigger: Trigger::Toggle, effect: effect(3, 4, Action::Enable) },
        Wire { source: 0, trigger: Trigger::Toggle, effect: effect(9, 1, Action::Enable) },
        Wire { source: 1, trigger: Trigger::Toggle, effect: effect(4, 4, Action::Disable) },
        Wire { source: 1, trigger: Trigger::On, effect: effect(8, 2, Action::Toggle) },
        Wire { source: 1, trigger: Trigger::Toggle, effect: effect(5, 3, Action::Toggle) },
    ];
    let csr = group_wires(&wires, 2);
    assert_eq!(csr.offs_on, vec![0, 0, 1]);
    assert_eq!(csr.offs_off, vec![1, 1, 1]);
    assert_eq!(csr.offs_tog, vec![1, 2, 5]);
    let bits: Vec<u32> = csr.effects.iter().map(|e| e.to_bit).collect();
    assert_eq!(bits, vec![8, 9, 5, 3, 4]);
}
