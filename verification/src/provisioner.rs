pub mod provisioner;
