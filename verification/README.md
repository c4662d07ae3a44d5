# murder

The verified core of Murder, an editor for Bevy made in Bevy.

- `src/lexer.rs`: the token grammar of the editor's scripting language, a
  longest-match lexer over characters, and the laws that its lexemes cover a
  script exactly.
- `src/vm.rs`: the script interpreter: what a script prints and how its run
  ends, stated as a function of the script's characters.
- `src/scene.rs`: scene objects as plain values.
- `src/editor.rs`: the editor's decisions (selection, the queried object, the
  inspector's listings, deletion, listing shades) as commands on marker
  components, with laws on their effect.
- `app/`: the Bevy program that reads the scene, calls the library and applies
  its commands; it also holds the floating-point camera, scrolling and text
  sizing systems.
