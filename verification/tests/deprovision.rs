use drasi_comms::deprovision::DeprovisionController;

#[test]
fn deprovision_controller_keeps_its_settings() {
    let c = DeprovisionController::new("localhost", 3500, "drasi-state");
    assert_eq!(c.dapr_host, "localhost");
    assert_eq!(c.dapr_port, 3500);
    assert_eq!(c.state_store, "drasi-state");
    DeprovisionController::deprovision();
}
