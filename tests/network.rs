use ryvu::{ModuleBuilder, Network};

#[test]
fn input_charging() {
    let mut builder = ModuleBuilder::default();
    builder.charge(0, 1);

    let mut network = Network::new(builder.build());
    network.charge_node(0);
    network.next();
    let charged = network.seek_node(1);

    assert!(charged);
}

#[test]
fn input_charging_discharges_input() {
    let mut builder = ModuleBuilder::default();
    builder.charge(0, 1);

    let mut network = Network::new(builder.build());
    network.charge_node(0);
    network.next();
    let charged = network.seek_node(0);

    assert!(!charged);
}

#[test]
fn input_charging_chain() {
    let mut builder = ModuleBuilder::default();
    builder.charge(0, 1);
    builder.charge(1, 2);
    builder.charge(2, 3);
    builder.charge(3, 4);

    let mut network = Network::new(builder.build());
    network.charge_node(0);
    network.next();
    network.next();
    network.next();
    let charged = network.seek_node(3);
    let discharged = !network.seek_node(0) && !network.seek_node(1) && !network.seek_node(2) && !network.seek_node(4);

    assert!(charged && discharged);
}

#[test]
fn basic_blocking() {
    let mut builder = ModuleBuilder::default();
    builder.block(0, 2);
    builder.charge(1, 2);
    builder.charge(2, 3);

    let mut network = Network::new(builder.build());
    network.charge_node(0);
    network.charge_node(1);
    network.next();
    network.next();
    let charged = network.seek_node(3);
    assert!(!charged);
}

#[test]
fn self_loop_keeps_charge() {
    let mut builder = ModuleBuilder::default();
    builder.charge(0, 0);
    let mut network = Network::new(builder.build());
    network.charge_node(0);
    for _ in 0..5 {
        network.next();
        assert!(network.seek_node(0));
    }
}

#[test]
fn ports_map_bits_to_nodes() {
    let mut builder = ModuleBuilder::default();
    builder.charge(0, 2);
    builder.charge(1, 3);
    builder.input(0);
    builder.input(1);
    builder.output(3);
    builder.output(2);
    let mut network = Network::new(builder.build());
    assert_eq!(network.output_bits(), vec![false, false]);
    network.charge_inputs(&vec![false, true]);
    network.next();
    assert_eq!(network.output_bits(), vec![true, false]);
    network.next();
    assert_eq!(network.output_bits(), vec![false, false]);
}

#[test]
fn charge_uses_input_position() {
    let mut builder = ModuleBuilder::default();
    builder.charge(1, 0);
    builder.input(1);
    builder.output(0);
    let mut network = Network::new(builder.build());
    network.charge(0);
    assert!(network.seek_node(1));
    assert!(!network.seek_node(0));
    network.next();
    assert!(network.seek(0));
}
